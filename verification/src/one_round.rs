//! The one-round protocol: every dealer broadcasts Pedersen commitments to a
//! random polynomial, a proof that they lie on one polynomial of degree `t`,
//! and the encrypted evaluations; every party checks all broadcasts, opens its
//! shares and sums them.

use crate::abort::{verify_report_core, AbortReport, AbortVerdict};
use crate::arith::{group_order, lemma_modl_add, lemma_modl_bound, modl};
use crate::encryption::elgamal::{batch_check, is_honest_pok, masked_share, opened_share, opened_sum, share_values};
use crate::encryption::proofs::{decryption_valid, prove_decryption, DecryptionProof};
use crate::encryption::{decrypt_my_shares, encrypt_batch, BatchEncryptedShares, EncryptedShare};
pub use crate::error::DkgOutputError;
use crate::error::WireError;
use crate::group::{svals, Point};
use crate::one_round_proofs::polyproof_schnorr::poly_relation;
use crate::one_round_proofs::{PolyProofScheme, PolyWellFormedStatement, PolyWellFormedWitness};
use crate::party::{Parties, PartyState};
use crate::pedersen::{commit_opened, com_dlog, PedersenCommitment};
use crate::poly::{eval_poly_on_1_to_n, poly_eval, sample_random_polynomial_with_constant};
use crate::scalar::Scalar;
use crate::sig::{ed25519_signature, ed25519_verify_strict, signed_by, Signature, SigningKey, VerifyingKey};
use crate::bytes::u64_le;
use crate::wire::{encoded_at, holds_at, lemma_holds_split, sealed, signed_bytes, WireCodec};
use crate::{DkgOutput, DkgParams};
use vstd::prelude::*;
use vstd::string::StringSliceAdditionalSpecFns;

pub mod laws;

verus! {

/// A dealer's broadcast.
#[derive(Clone)]
pub struct DkgInitBroadcast<P> {
    pub dealer_idx: usize,
    pub pedvss: Vec<PedersenCommitment>,
    pub f0_commitment: Point,
    pub proof: P,
    pub encrypted_shares: BatchEncryptedShares,
    pub signature: Signature,
}

/// The dealer's own evaluation and blinding.
#[derive(Clone, Copy, Debug)]
pub struct DkgInitLocalState {
    pub my_share: Scalar,
    pub my_blinding: Scalar,
}

/// What a dealer sends and what it keeps.
#[derive(Clone)]
pub struct DkgInitResult<P> {
    pub broadcast: DkgInitBroadcast<P>,
    pub local: DkgInitLocalState,
}

/// Domain tag on the signed bytes of an init broadcast.
pub const DKG_INIT_DOMAIN: &'static str = "janus1-init-broadcast";

/// The domain tag as bytes.
pub open spec fn init_domain() -> Seq<u8> {
    "janus1-init-broadcast".spec_bytes()
}

/// The encoding of a broadcast's signed fields.
pub open spec fn init_fields_encoding<P: WireCodec>(m: DkgInitBroadcast<P>) -> Seq<u8> {
    m.dealer_idx.encoding() + m.pedvss.encoding() + m.f0_commitment.encoding() + m.proof.encoding()
        + m.encrypted_shares.encoding()
}

/// The broadcast's signed fields read back from their encoding.
pub open spec fn init_encodable<P: WireCodec>(m: DkgInitBroadcast<P>) -> bool {
    &&& m.pedvss.encodable()
    &&& m.f0_commitment.encodable()
    &&& m.proof.encodable()
    &&& m.encrypted_shares.encodable()
}

/// `wire` carries broadcast `m` as `to_wire` writes it: its fields read back,
/// its dealer is one of the parties, and its signature verifies under that
/// dealer's key.
pub open spec fn init_on_wire<P: WireCodec>(wire: Seq<u8>, m: DkgInitBroadcast<P>, parties: Parties) -> bool {
    &&& init_encodable(m)
    &&& wire == sealed(init_fields_encoding(m), m.signature.bytes@)
    &&& 1 <= m.dealer_idx <= parties.parties@.len()
    &&& init_signature_ok(m, parties.parties@[m.dealer_idx - 1].sig_pk)
}

/// The bytes a broadcast's signature covers.
pub open spec fn init_signed_bytes<P: WireCodec>(m: DkgInitBroadcast<P>) -> Seq<u8> {
    signed_bytes(init_domain(), init_fields_encoding(m))
}

/// The broadcast's signature verifies under `pk`.
pub open spec fn init_signature_ok<P: WireCodec>(m: DkgInitBroadcast<P>, pk: VerifyingKey) -> bool {
    ed25519_verify_strict(pk.bytes@, init_signed_bytes(m), m.signature.bytes@)
}

fn init_domain_bytes() -> (r: &'static [u8])
    ensures
        r@ == init_domain(),
{
    "janus1-init-broadcast".as_bytes()
}

impl<P: WireCodec> DkgInitBroadcast<P> {
    /// The encoding of the signed fields.
    fn fields_bytes(&self) -> (r: Vec<u8>)
        ensures
            r@ == init_fields_encoding(*self),
            init_encodable(*self),
    {
        let mut out: Vec<u8> = Vec::new();
        self.dealer_idx.encode(&mut out);
        self.pedvss.encode(&mut out);
        self.f0_commitment.encode(&mut out);
        self.proof.encode(&mut out);
        self.encrypted_shares.encode(&mut out);
        assert(out@ =~= init_fields_encoding(*self));
        out
    }

    /// A broadcast signed with the dealer's key.
    pub fn new(
        dealer_idx: usize,
        pedvss: Vec<PedersenCommitment>,
        f0_commitment: Point,
        proof: P,
        encrypted_shares: BatchEncryptedShares,
        signing_key: &SigningKey,
    ) -> (r: Self)
        ensures
            r.dealer_idx == dealer_idx,
            r.pedvss@ == pedvss@,
            r.f0_commitment == f0_commitment,
            r.proof == proof,
            r.encrypted_shares == encrypted_shares,
            r.signature.bytes@ == ed25519_signature(signing_key.bytes@, init_signed_bytes(r)),
            signed_by(signing_key.bytes@, init_signed_bytes(r), r.signature.bytes@),
    {
        let mut msg = DkgInitBroadcast {
            dealer_idx,
            pedvss,
            f0_commitment,
            proof,
            encrypted_shares,
            signature: Signature::placeholder(),
        };
        msg.sign(signing_key);
        msg
    }

    /// The bytes the signature covers.
    pub fn signing_bytes(&self) -> (r: Vec<u8>)
        ensures
            r@ == init_signed_bytes(*self),
    {
        let fields = self.fields_bytes();
        crate::wire::signing_bytes(init_domain_bytes(), fields.as_slice())
    }

    /// Signs the broadcast.
    pub fn sign(&mut self, sk: &SigningKey)
        ensures
            final(self).dealer_idx == old(self).dealer_idx,
            final(self).pedvss == old(self).pedvss,
            final(self).f0_commitment == old(self).f0_commitment,
            final(self).proof == old(self).proof,
            final(self).encrypted_shares == old(self).encrypted_shares,
            final(self).signature.bytes@ == ed25519_signature(sk.bytes@, init_signed_bytes(*old(self))),
            signed_by(sk.bytes@, init_signed_bytes(*old(self)), final(self).signature.bytes@),
    {
        let bytes = self.signing_bytes();
        self.signature = sk.sign(bytes.as_slice());
    }

    /// Whether the signature verifies under `pk`.
    pub fn verify(&self, pk: &VerifyingKey) -> (r: bool)
        ensures
            r == init_signature_ok(*self, *pk),
    {
        let bytes = self.signing_bytes();
        pk.verify_strict(bytes.as_slice(), &self.signature)
    }

    /// Encodes the broadcast as it travels over the channel.
    pub fn to_wire(&self) -> (r: Vec<u8>)
        ensures
            r@ == sealed(init_fields_encoding(*self), self.signature.bytes@),
            init_encodable(*self),
    {
        let fields = self.fields_bytes();
        crate::wire::seal(fields.as_slice(), &self.signature)
    }

    /// Decodes a received message and authenticates it against the claimed
    /// sender's key, over the bytes as received. What `to_wire` writes of a
    /// broadcast signed by its dealer reads back with the same fields and
    /// signature.
    pub fn from_wire(wire: &[u8], parties: &Parties) -> (r: Result<Self, WireError>)
        ensures
            !crate::wire::frame_ok(wire@) ==> r == Err::<Self, WireError>(WireError::MalformedMessage),
            r matches Ok(m) ==> init_on_wire(wire@, m, *parties),
            r is Ok <==> exists|m: Self| #[trigger] init_on_wire(wire@, m, *parties),
            r matches Err(e) ==> e == WireError::MalformedMessage || e == WireError::BadSignature,
            forall|m: Self|
                #[trigger] init_on_wire(wire@, m, *parties) ==> (r matches Ok(w) && w.dealer_idx == m.dealer_idx
                    && init_fields_encoding(w) == init_fields_encoding(m) && w.signature.bytes@
                    == m.signature.bytes@),
    {
        let wire_len = wire.len();
        proof {
            vstd::bytes::lemma_auto_spec_u64_to_from_le_bytes();
            assert forall|c: Self| #[trigger] init_on_wire(wire@, c, *parties) implies init_fields_encoding(c).len() + 72
                <= u64::MAX by {
                assert(u64_le(init_fields_encoding(c).len() as u64).len() == 8);
                assert(c.signature.bytes@.len() == 64);
                assert(wire@.len() == wire_len);
            }
            assert forall|c: Self| #[trigger] init_on_wire(wire@, c, *parties) implies crate::wire::frame_ok(wire@) by {
                crate::wire::lemma_split_seal(init_fields_encoding(c), c.signature.bytes@, init_fields_encoding(c), c.signature.bytes@);
            }
        }
        let (payload, signature) = match crate::wire::split(wire) {
            Ok(x) => x,
            Err(e) => {
                return Err(e);
            },
        };
        let p = payload.as_slice();
        proof {
            vstd::bytes::lemma_auto_spec_u64_to_from_le_bytes();
            assert forall|c: Self| #[trigger] init_on_wire(wire@, c, *parties) implies p@ == init_fields_encoding(c)
                && signature.bytes@ == c.signature.bytes@ && holds_at(
                p@,
                0,
                c.dealer_idx.encoding() + (c.pedvss.encoding() + (c.f0_commitment.encoding() + (c.proof.encoding()
                    + c.encrypted_shares.encoding()))),
            ) by {
                crate::wire::lemma_split_seal(init_fields_encoding(c), c.signature.bytes@, payload@, signature.bytes@);
                assert(init_fields_encoding(c) =~= c.dealer_idx.encoding() + (c.pedvss.encoding() + (
                c.f0_commitment.encoding() + (c.proof.encoding() + c.encrypted_shares.encoding()))));
                assert(p@.subrange(0, p@.len() as int) =~= p@);
            }
            assert forall|c: Self| #[trigger] init_on_wire(wire@, c, *parties) implies encoded_at(p@, 0, c.dealer_idx)
                && holds_at(
                p@,
                c.dealer_idx.encoding().len() as int,
                c.pedvss.encoding() + (c.f0_commitment.encoding() + (c.proof.encoding()
                    + c.encrypted_shares.encoding())),
            ) by {
                lemma_holds_split(
                    p@,
                    0,
                    c.dealer_idx.encoding(),
                    c.pedvss.encoding() + (c.f0_commitment.encoding() + (c.proof.encoding()
                        + c.encrypted_shares.encoding())),
                );
            }
        }
        let (dealer_idx, p0) = match usize::decode(p, 0) {
            Some(x) => x,
            None => {
                return Err(WireError::MalformedMessage);
            },
        };
        proof {
            assert forall|c: Self| #[trigger] init_on_wire(wire@, c, *parties) implies p0 == c.dealer_idx.encoding().len()
                && dealer_idx == c.dealer_idx && encoded_at(p@, p0 as int, c.pedvss) && holds_at(
                p@,
                p0 + c.pedvss.encoding().len(),
                c.f0_commitment.encoding() + (c.proof.encoding() + c.encrypted_shares.encoding()),
            ) by {
                assert(encoded_at(p@, 0, c.dealer_idx));
                assert(vstd::bytes::spec_u64_from_le_bytes(u64_le(dealer_idx as u64)) == dealer_idx as u64);
                assert(vstd::bytes::spec_u64_from_le_bytes(u64_le(c.dealer_idx as u64)) == c.dealer_idx as u64);
                lemma_holds_split(
                    p@,
                    p0 as int,
                    c.pedvss.encoding(),
                    c.f0_commitment.encoding() + (c.proof.encoding() + c.encrypted_shares.encoding()),
                );
            }
        }
        let (pedvss, p1) = match <Vec<PedersenCommitment> as WireCodec>::decode(p, p0) {
            Some(x) => x,
            None => {
                return Err(WireError::MalformedMessage);
            },
        };
        proof {
            assert forall|c: Self| #[trigger] init_on_wire(wire@, c, *parties) implies p1 == p0 + c.pedvss.encoding().len()
                && pedvss.encoding() == c.pedvss.encoding() && encoded_at(p@, p1 as int, c.f0_commitment) && holds_at(
                p@,
                p1 + c.f0_commitment.encoding().len(),
                c.proof.encoding() + c.encrypted_shares.encoding(),
            ) by {
                assert(encoded_at(p@, p0 as int, c.pedvss));
                lemma_holds_split(
                    p@,
                    p1 as int,
                    c.f0_commitment.encoding(),
                    c.proof.encoding() + c.encrypted_shares.encoding(),
                );
            }
        }
        let (f0_commitment, p2) = match Point::decode(p, p1) {
            Some(x) => x,
            None => {
                return Err(WireError::MalformedMessage);
            },
        };
        proof {
            assert forall|c: Self| #[trigger] init_on_wire(wire@, c, *parties) implies p2 == p1
                + c.f0_commitment.encoding().len() && f0_commitment.encoding() == c.f0_commitment.encoding()
                && encoded_at(p@, p2 as int, c.proof) && holds_at(
                p@,
                p2 + c.proof.encoding().len(),
                c.encrypted_shares.encoding(),
            ) by {
                assert(encoded_at(p@, p1 as int, c.f0_commitment));
                lemma_holds_split(p@, p2 as int, c.proof.encoding(), c.encrypted_shares.encoding());
            }
        }
        let (proof, p3) = match P::decode(p, p2) {
            Some(x) => x,
            None => {
                return Err(WireError::MalformedMessage);
            },
        };
        proof {
            assert forall|c: Self| #[trigger] init_on_wire(wire@, c, *parties) implies p3 == p2 + c.proof.encoding().len()
                && proof.encoding() == c.proof.encoding() && encoded_at(p@, p3 as int, c.encrypted_shares) by {
                assert(encoded_at(p@, p2 as int, c.proof));
            }
        }
        let (encrypted_shares, p4) = match BatchEncryptedShares::decode(p, p3) {
            Some(x) => x,
            None => {
                return Err(WireError::MalformedMessage);
            },
        };
        proof {
            assert forall|c: Self| #[trigger] init_on_wire(wire@, c, *parties) implies p4 == p3
                + c.encrypted_shares.encoding().len() && encrypted_shares.encoding() == c.encrypted_shares.encoding()
                && p4 == p@.len() by {
                assert(encoded_at(p@, p3 as int, c.encrypted_shares));
                assert(init_fields_encoding(c).len() == c.dealer_idx.encoding().len() + c.pedvss.encoding().len()
                    + c.f0_commitment.encoding().len() + c.proof.encoding().len() + c.encrypted_shares.encoding().len());
            }
        }
        if p4 != p.len() {
            return Err(WireError::MalformedMessage);
        }
        if dealer_idx == 0 || dealer_idx > parties.len() {
            return Err(WireError::MalformedMessage);
        }
        let msg = DkgInitBroadcast {
            dealer_idx,
            pedvss,
            f0_commitment,
            proof,
            encrypted_shares,
            signature,
        };
        proof {
            assert(p@ =~= p@.subrange(0, p0 as int) + p@.subrange(p0 as int, p1 as int) + p@.subrange(
                p1 as int,
                p2 as int,
            ) + p@.subrange(p2 as int, p3 as int) + p@.subrange(p3 as int, p4 as int));
            assert(p@ == init_fields_encoding(msg));
        }
        match crate::wire::verify_payload(init_domain_bytes(), p, &msg.signature, parties.sig_pk(dealer_idx)) {
            Ok(()) => {
                assert(init_on_wire(wire@, msg, *parties));
                Ok(msg)
            },
            Err(e) => {
                proof {
                    assert forall|c: Self| #[trigger] init_on_wire(wire@, c, *parties) implies false by {
                        assert(init_fields_encoding(msg) == init_fields_encoding(c));
                        assert(init_signed_bytes(msg) == init_signed_bytes(c));
                    }
                }
                Err(e)
            },
        }
    }
}

/// The evaluation points `1, ..., n`.
fn domain_points_1_to_n(n: usize) -> (r: Vec<Scalar>)
    ensures
        r@.len() == n,
        forall|i: int| 0 <= i < n ==> (#[trigger] r@[i])@ == i + 1,
{
    let mut out: Vec<Scalar> = Vec::new();
    let mut i: usize = 0;
    while i < n
        invariant
            i <= n,
            out@.len() == i,
            forall|q: int| 0 <= q < i ==> (#[trigger] out@[q])@ == q + 1,
        decreases n - i,
    {
        out.push(Scalar::from_u64(i as u64 + 1));
        i = i + 1;
    }
    out
}

/// A copy of a vector of commitments.
fn copy_commitments(cs: &Vec<PedersenCommitment>) -> (r: Vec<PedersenCommitment>)
    ensures
        r@ == cs@,
{
    let mut out: Vec<PedersenCommitment> = Vec::new();
    let mut i: usize = 0;
    while i < cs.len()
        invariant
            i <= cs@.len(),
            out@ == cs@.subrange(0, i as int),
        decreases cs@.len() - i,
    {
        out.push(cs[i]);
        i = i + 1;
        assert(out@ =~= cs@.subrange(0, i as int));
    }
    assert(cs@.subrange(0, cs@.len() as int) =~= cs@);
    out
}

/// The statement that a broadcast's proof is about.
pub open spec fn statement_of<P>(stmt: PolyWellFormedStatement, m: DkgInitBroadcast<P>, n: int, t: int) -> bool {
    &&& stmt.x_points@.len() == n
    &&& forall|i: int| 0 <= i < n ==> (#[trigger] stmt.x_points@[i])@ == i + 1
    &&& stmt.commitments@ == m.pedvss@
    &&& stmt.f0_commitment == m.f0_commitment
    &&& stmt.degree == t
}

/// What every accepted broadcast satisfies on its own: the dealer's index is
/// in range, the commitment vector has one entry per party, and the
/// signature verifies under the dealer's key.
pub open spec fn broadcast_ok<P: WireCodec>(n: int, parties: Parties, m: DkgInitBroadcast<P>) -> bool {
    &&& 1 <= m.dealer_idx <= n
    &&& m.pedvss@.len() == n
    &&& init_signature_ok(m, parties.parties@[m.dealer_idx - 1].sig_pk)
}

/// Some broadcast comes from dealer `k`.
pub open spec fn has_dealer<P>(bs: Seq<DkgInitBroadcast<P>>, k: int) -> bool {
    exists|i: int| 0 <= i < bs.len() && #[trigger] bs[i].dealer_idx == k
}

/// Every dealer index `1..n` occurs exactly once.
pub open spec fn one_per_dealer<P>(n: int, bs: Seq<DkgInitBroadcast<P>>) -> bool {
    &&& forall|i: int, j: int| 0 <= i < j < bs.len() ==> bs[i].dealer_idx != bs[j].dealer_idx
    &&& forall|k: int| 1 <= k <= n ==> #[trigger] has_dealer(bs, k)
}

/// The shape of a set of broadcasts: some parties, the receiver among them,
/// every dealer among them with one commitment per party, and one broadcast
/// from each dealer.
pub open spec fn init_structure_ok<P>(n: int, my: usize, bs: Seq<DkgInitBroadcast<P>>) -> bool {
    &&& n > 0
    &&& 1 <= my <= n
    &&& forall|i: int| 0 <= i < bs.len() ==> 1 <= (#[trigger] bs[i]).dealer_idx <= n && bs[i].pedvss@.len() == n
    &&& one_per_dealer(n, bs)
}

/// Broadcast `i` is the first whose signature fails, its own shape is right,
/// and every broadcast before it passed all of its checks.
pub open spec fn first_bad_signature_at<P: WireCodec>(n: int, parties: Parties, bs: Seq<DkgInitBroadcast<P>>, i: int) -> bool {
    &&& 0 <= i < bs.len()
    &&& 1 <= bs[i].dealer_idx <= n
    &&& bs[i].pedvss@.len() == n
    &&& !init_signature_ok(bs[i], parties.parties@[bs[i].dealer_idx - 1].sig_pk)
    &&& forall|j: int| 0 <= j < i ==> broadcast_ok(n, parties, #[trigger] bs[j])
}

/// The broadcasts pass the checks that come before the proofs: the
/// parameters, every broadcast's shape and signature, one per dealer.
pub open spec fn broadcasts_validated<P: WireCodec>(n: int, my: usize, bs: Seq<DkgInitBroadcast<P>>, parties: Parties) -> bool {
    &&& n > 0
    &&& 1 <= my <= n
    &&& forall|i: int| 0 <= i < bs.len() ==> broadcast_ok(n, parties, #[trigger] bs[i])
    &&& one_per_dealer(n, bs)
}

/// Broadcast `i` is the first whose proof is refused.
pub open spec fn first_refused_at<S: PolyProofScheme>(params: S::Params, bs: Seq<DkgInitBroadcast<S::Proof>>, n: int, t: int, i: int) -> bool {
    &&& 0 <= i < bs.len()
    &&& proof_refused::<S>(params, bs[i], n, t)
    &&& forall|j: int| 0 <= j < i ==> proof_accepted::<S>(params, #[trigger] bs[j], n, t)
}

/// An error comes in the order the checks run: the parameters and each
/// broadcast's shape, then its signature (the first failing one; with
/// `shapes_first`, only once every broadcast's shape passed), then the proofs
/// (the first refused one, once every earlier check passed), then the
/// decryption (once every proof was accepted).
pub open spec fn output_error_in_order<S: PolyProofScheme>(
    e: DkgOutputError,
    dkg_params: DkgParams,
    proof_params: S::Params,
    my: usize,
    bs: Seq<DkgInitBroadcast<S::Proof>>,
    parties: Parties,
    shapes_first: bool,
) -> bool where S::Proof: WireCodec {
    let n = dkg_params.n as int;
    let t = dkg_params.t as int;
    match e {
        DkgOutputError::InvalidParameters => true,
        DkgOutputError::InvalidWire => true,
        DkgOutputError::InvalidSignature { dealer_idx } => n > 0 && 1 <= my <= n && (shapes_first ==> init_structure_ok(
            n,
            my,
            bs,
        )) && exists|i: int| #[trigger] first_bad_signature_at(n, parties, bs, i) && bs[i].dealer_idx == dealer_idx,
        DkgOutputError::InvalidBatchProof { dealer_idx } => broadcasts_validated(n, my, bs, parties) && exists|i: int|
            #[trigger] first_refused_at::<S>(proof_params, bs, n, t, i) && bs[i].dealer_idx == dealer_idx,
        _ => broadcasts_accepted::<S>(dkg_params, proof_params, my, bs, parties),
    }
}

fn validate_broadcasts<P: WireCodec>(n: usize, my_idx: usize, broadcasts: &[DkgInitBroadcast<P>], parties: &Parties) -> (r: Result<(), DkgOutputError>)
    requires
        parties.parties@.len() >= n,
    ensures
        r matches Err(DkgOutputError::InvalidSignature { dealer_idx }) ==> n > 0 && 1 <= my_idx <= n && exists|i: int|
            #[trigger] first_bad_signature_at(n as int, *parties, broadcasts@, i) && broadcasts@[i].dealer_idx == dealer_idx,
        r matches Err(e) ==> e is InvalidParameters || e is InvalidSignature,
        r matches Err(DkgOutputError::InvalidParameters) ==> !init_structure_ok(n as int, my_idx, broadcasts@),
        r is Ok <==> (n > 0 && 1 <= my_idx <= n && (forall|i: int|
            0 <= i < broadcasts@.len() ==> broadcast_ok(n as int, *parties, #[trigger] broadcasts@[i]))
            && one_per_dealer(n as int, broadcasts@)),
        !(n > 0 && 1 <= my_idx <= n) ==> r matches Err(DkgOutputError::InvalidParameters),
        r matches Err(e) ==> (e matches DkgOutputError::InvalidParameters || (e matches DkgOutputError::InvalidSignature { dealer_idx }
            && exists|i: int| 0 <= i < broadcasts@.len() && broadcasts@[i].dealer_idx == dealer_idx
                && !init_signature_ok(broadcasts@[i], parties.parties@[dealer_idx - 1].sig_pk))),
{
    if n == 0 || my_idx == 0 || my_idx > n {
        return Err(DkgOutputError::InvalidParameters);
    }
    let ghost bs = broadcasts@;
    let mut seen: Vec<bool> = Vec::new();
    let mut k: usize = 0;
    while k < n
        invariant
            k <= n,
            seen@.len() == k,
            forall|q: int| 0 <= q < k ==> !seen@[q],
        decreases n - k,
    {
        seen.push(false);
        k = k + 1;
    }
    let mut i: usize = 0;
    while i < broadcasts.len()
        invariant
            i <= bs.len(),
            bs == broadcasts@,
            n > 0,
            1 <= my_idx <= n,
            parties.parties@.len() >= n,
            seen@.len() == n,
            forall|q: int| 0 <= q < i ==> broadcast_ok(n as int, *parties, #[trigger] bs[q]),
            forall|a: int, b: int| 0 <= a < b < i ==> bs[a].dealer_idx != bs[b].dealer_idx,
            forall|s: int| 0 <= s < n ==> (seen@[s] <==> exists|q: int| 0 <= q < i && #[trigger] bs[q].dealer_idx == s + 1),
        decreases bs.len() - i,
    {
        let msg = &broadcasts[i];
        if msg.dealer_idx == 0 || msg.dealer_idx > n || msg.pedvss.len() != n {
            assert(!(1 <= bs[i as int].dealer_idx <= n && bs[i as int].pedvss@.len() == n));
            return Err(DkgOutputError::InvalidParameters);
        }
        if !msg.verify(parties.sig_pk(msg.dealer_idx)) {
            proof {
                assert(first_bad_signature_at(n as int, *parties, bs, i as int));
            }
            return Err(DkgOutputError::InvalidSignature { dealer_idx: msg.dealer_idx });
        }
        let slot = msg.dealer_idx - 1;
        if seen[slot] {
            proof {
                let q = choose|q: int| 0 <= q < i && #[trigger] bs[q].dealer_idx == slot + 1;
                assert(bs[q].dealer_idx == bs[i as int].dealer_idx);
                assert(!one_per_dealer(n as int, bs));
            }
            return Err(DkgOutputError::InvalidParameters);
        }
        let ghost old_seen = seen@;
        seen.set(slot, true);
        proof {
            assert forall|s: int| 0 <= s < n implies (seen@[s] <==> exists|q: int| 0 <= q < i + 1 && #[trigger] bs[q].dealer_idx == s + 1) by {
                if s == slot {
                    assert(bs[i as int].dealer_idx == s + 1);
                } else {
                    if seen@[s] {
                        assert(old_seen[s]);
                    }
                    if exists|q: int| 0 <= q < i + 1 && #[trigger] bs[q].dealer_idx == s + 1 {
                        let q = choose|q: int| 0 <= q < i + 1 && #[trigger] bs[q].dealer_idx == s + 1;
                        assert(q != i);
                        assert(old_seen[s]);
                    }
                }
            }
        }
        i = i + 1;
    }
    let mut k: usize = 0;
    while k < n
        invariant
            k <= n,
            seen@.len() == n,
            bs == broadcasts@,
            forall|q: int| 0 <= q < k ==> seen@[q],
            forall|s: int| 0 <= s < n ==> (seen@[s] <==> exists|q: int| 0 <= q < bs.len() && #[trigger] bs[q].dealer_idx == s + 1),
        decreases n - k,
    {
        if !seen[k] {
            proof {
                if has_dealer(bs, k + 1) {
                    assert(seen@[k as int]);
                }
                assert(!one_per_dealer(n as int, bs));
            }
            return Err(DkgOutputError::InvalidParameters);
        }
        k = k + 1;
    }
    proof {
        assert forall|kk: int| 1 <= kk <= n implies #[trigger] has_dealer(bs, kk) by {
            assert(seen@[kk - 1]);
        }
    }
    Ok(())
}

/// A proof is accepted for a broadcast: the verifier accepts it on the
/// statement the broadcast defines.
pub open spec fn proof_accepted<S: PolyProofScheme>(params: S::Params, m: DkgInitBroadcast<S::Proof>, n: int, t: int) -> bool {
    exists|stmt: PolyWellFormedStatement| statement_of(stmt, m, n, t) && S::proof_valid(&params, &stmt, &m.proof)
}

/// A proof is refused for a broadcast.
pub open spec fn proof_refused<S: PolyProofScheme>(params: S::Params, m: DkgInitBroadcast<S::Proof>, n: int, t: int) -> bool {
    exists|stmt: PolyWellFormedStatement| statement_of(stmt, m, n, t) && !S::proof_valid(&params, &stmt, &m.proof)
}

fn verify_poly_proofs<S: PolyProofScheme>(dkg_params: &DkgParams, proof_params: &S::Params, broadcasts: &[DkgInitBroadcast<S::Proof>]) -> (r: Result<(), DkgOutputError>)
    ensures
        r is Ok ==> forall|i: int|
            0 <= i < broadcasts@.len() ==> proof_accepted::<S>(
                *proof_params,
                #[trigger] broadcasts@[i],
                dkg_params.n as int,
                dkg_params.t as int,
            ),
        r matches Err(e) ==> exists|i: int|
            0 <= i < broadcasts@.len() && proof_refused::<S>(
                *proof_params,
                #[trigger] broadcasts@[i],
                dkg_params.n as int,
                dkg_params.t as int,
            ) && e == (DkgOutputError::InvalidBatchProof { dealer_idx: broadcasts@[i].dealer_idx }),
        r matches Err(e) ==> exists|i: int|
            #[trigger] first_refused_at::<S>(*proof_params, broadcasts@, dkg_params.n as int, dkg_params.t as int, i)
                && e == (DkgOutputError::InvalidBatchProof { dealer_idx: broadcasts@[i].dealer_idx }),
{
    let ghost bs = broadcasts@;
    let mut i: usize = 0;
    while i < broadcasts.len()
        invariant
            i <= bs.len(),
            bs == broadcasts@,
            forall|q: int|
                0 <= q < i ==> proof_accepted::<S>(
                    *proof_params,
                    #[trigger] bs[q],
                    dkg_params.n as int,
                    dkg_params.t as int,
                ),
        decreases bs.len() - i,
    {
        let msg = &broadcasts[i];
        let stmt = PolyWellFormedStatement {
            x_points: domain_points_1_to_n(dkg_params.n),
            commitments: copy_commitments(&msg.pedvss),
            f0_commitment: msg.f0_commitment,
            degree: dkg_params.t,
        };
        assert(statement_of(stmt, *msg, dkg_params.n as int, dkg_params.t as int));
        if !S::verify(proof_params, &stmt, &msg.proof) {
            proof {
                assert(first_refused_at::<S>(*proof_params, bs, dkg_params.n as int, dkg_params.t as int, i as int));
            }
            return Err(DkgOutputError::InvalidBatchProof { dealer_idx: msg.dealer_idx });
        }
        i = i + 1;
    }
    Ok(())
}

/// The positions, among the first `k` broadcasts, of those not from `my`.
pub open spec fn other_positions<P>(bs: Seq<DkgInitBroadcast<P>>, my: usize, k: int) -> Seq<int>
    decreases k,
{
    if k <= 0 {
        Seq::empty()
    } else {
        let p = other_positions(bs, my, k - 1);
        if bs[k - 1].dealer_idx != my {
            p.push(k - 1)
        } else {
            p
        }
    }
}

proof fn lemma_other_positions(bs: Seq<DkgInitBroadcast<impl Sized>>, my: usize, k: int, m: int)
    requires
        0 <= k <= m,
    ensures
        other_positions(bs, my, k).len() <= other_positions(bs, my, m).len(),
        other_positions(bs, my, m).len() <= m,
        forall|j: int|
            0 <= j < other_positions(bs, my, k).len() ==> #[trigger] other_positions(bs, my, k)[j]
                == other_positions(bs, my, m)[j],
        forall|j: int|
            0 <= j < other_positions(bs, my, m).len() ==> 0 <= #[trigger] other_positions(bs, my, m)[j] < m,
    decreases m,
{
    if m > 0 {
        if k < m {
            lemma_other_positions(bs, my, k, m - 1);
        }
        lemma_other_positions(bs, my, m - 1, m - 1);
    }
}

/// The pair that receiver `my` opens from broadcast `i` with key `sk`.
pub open spec fn received<P>(sk: int, bs: Seq<DkgInitBroadcast<P>>, my: usize, i: int) -> (int, int) {
    opened_share(sk, &bs[i].encrypted_shares, my).unwrap()
}

/// `init` plus the part (0: share, 1: blinding) received from every other
/// dealer among the first `k` broadcasts, reduced at every step.
pub open spec fn received_sum<P>(sk: int, bs: Seq<DkgInitBroadcast<P>>, my: usize, k: int, init: int, part: int) -> int
    decreases k,
{
    if k <= 0 {
        init
    } else {
        let prev = received_sum(sk, bs, my, k - 1, init, part);
        if bs[k - 1].dealer_idx != my {
            let x = received(sk, bs, my, k - 1);
            modl(prev + if part == 0 { x.0 } else { x.1 })
        } else {
            prev
        }
    }
}

/// Every other dealer sent receiver `my` a pair, and it opens that dealer's
/// commitment for `my`.
pub open spec fn all_received_open<P>(sk: int, bs: Seq<DkgInitBroadcast<P>>, my: usize) -> bool {
    forall|i: int|
        0 <= i < bs.len() && bs[i].dealer_idx != my ==> {
            &&& (#[trigger] opened_share(sk, &bs[i].encrypted_shares, my)) is Some
            &&& bs[i].pedvss@[my - 1]@ == com_dlog(received(sk, bs, my, i).0, received(sk, bs, my, i).1)
        }
}

/// Pair `d` was opened, and it opens commitment `c`.
pub open spec fn pair_opens(c: PedersenCommitment, d: Option<(Scalar, Scalar)>) -> bool {
    &&& d is Some
    &&& c@ == com_dlog(d.unwrap().0@, d.unwrap().1@)
}

/// Each opened pair opens its message's commitment for receiver `my`.
pub open spec fn each_pair_opens<P>(msgs: Seq<&DkgInitBroadcast<P>>, ds: Seq<Option<(Scalar, Scalar)>>, my: usize) -> bool {
    forall|q: int| 0 <= q < ds.len() ==> pair_opens(msgs[q].pedvss@[my - 1], #[trigger] ds[q])
}

/// `e` reports the first pair that does not open: its dealer, the receiver,
/// and the pair where one was opened.
pub open spec fn opening_refused<P>(
    msgs: Seq<&DkgInitBroadcast<P>>,
    ds: Seq<Option<(Scalar, Scalar)>>,
    my: usize,
    sk: int,
    pk: Point,
    e: DkgOutputError,
) -> bool {
    exists|q: int|
        {
            &&& 0 <= q < ds.len()
            &&& !pair_opens(msgs[q].pedvss@[my - 1], #[trigger] ds[q])
            &&& forall|j: int| 0 <= j < q ==> pair_opens(msgs[j].pedvss@[my - 1], ds[j])
            &&& match ds[q] {
                None => e == (DkgOutputError::MissingCiphertext { dealer_idx: msgs[q].dealer_idx, receiver_idx: my }),
                Some(p) => (e matches DkgOutputError::InvalidDecryptionOpening { dealer_idx, receiver_idx, s_ji, r_ji, pi_i }
                    && dealer_idx == msgs[q].dealer_idx && receiver_idx == my && s_ji == p.0 && r_ji == p.1
                    && honest_decryption(msgs[q].encrypted_shares.u, sk, pk, pi_i.0, pi_i.1)),
            }
        }
}

/// `(shared, proof)` is what the receiver with key pair `(sk, pk)` computes
/// and proves of `u`: `shared = u^sk`, and the proof verifies when `pk = g^sk`.
pub open spec fn honest_decryption(u: Point, sk: int, pk: Point, shared: Point, proof: DecryptionProof) -> bool {
    &&& shared@ == modl(u@ * sk)
    &&& pk@ == modl(sk) ==> decryption_valid(pk, u, shared, proof)
}

/// Checks that each opened pair opens its dealer's commitment for this party
/// and adds the pairs to `init`.
fn accumulate_decrypted_shares<P>(
    state: &PartyState,
    other_msgs: &[&DkgInitBroadcast<P>],
    decrypted: &[Option<(Scalar, Scalar)>],
    init: (Scalar, Scalar),
) -> (r: Result<(Scalar, Scalar), DkgOutputError>)
    requires
        1 <= state.dealer_idx,
        other_msgs@.len() == decrypted@.len(),
        forall|q: int| 0 <= q < other_msgs@.len() ==> (#[trigger] other_msgs@[q]).pedvss@.len() >= state.dealer_idx,
    ensures
        r is Ok <==> each_pair_opens(other_msgs@, decrypted@, state.dealer_idx),
        r matches Ok((s, b)) ==> (s@ == opened_sum(decrypted@, decrypted@.len() as int, init.0@, 0) && b@
            == opened_sum(decrypted@, decrypted@.len() as int, init.1@, 1)),
        r matches Err(e) ==> opening_refused(other_msgs@, decrypted@, state.dealer_idx, state.enc_sk@, state.enc_pk, e),
{
    let my = state.dealer_idx;
    let expected = commit_opened(decrypted);
    let mut s_i = init.0;
    let mut s_i_blind = init.1;
    let mut q: usize = 0;
    while q < decrypted.len()
        invariant
            q <= decrypted@.len(),
            1 <= my,
            my == state.dealer_idx,
            other_msgs@.len() == decrypted@.len(),
            expected@.len() == decrypted@.len(),
            forall|j: int|
                0 <= j < decrypted@.len() ==> (#[trigger] decrypted@[j] matches Some(p) ==> expected@[j]@ == com_dlog(p.0@, p.1@)),
            forall|j: int| 0 <= j < other_msgs@.len() ==> (#[trigger] other_msgs@[j]).pedvss@.len() >= my,
            forall|j: int| 0 <= j < q ==> pair_opens(other_msgs@[j].pedvss@[my - 1], #[trigger] decrypted@[j]),
            s_i@ == opened_sum(decrypted@, q as int, init.0@, 0),
            s_i_blind@ == opened_sum(decrypted@, q as int, init.1@, 1),
        decreases decrypted@.len() - q,
    {
        let msg = other_msgs[q];
        let (s_ji, r_ji) = match decrypted[q] {
            Some(pair) => pair,
            None => {
                let e = DkgOutputError::MissingCiphertext { dealer_idx: msg.dealer_idx, receiver_idx: my };
                assert(!pair_opens(other_msgs@[q as int].pedvss@[my - 1], decrypted@[q as int]));
                return Err(e);
            },
        };
        if !msg.pedvss[my - 1].point().equals(&expected[q]) {
            let pi_i = prove_decryption(&state.enc_sk, &state.enc_pk, &msg.encrypted_shares.u);
            assert(!pair_opens(other_msgs@[q as int].pedvss@[my - 1], decrypted@[q as int]));
            return Err(
                DkgOutputError::InvalidDecryptionOpening {
                    dealer_idx: msg.dealer_idx,
                    receiver_idx: my,
                    s_ji,
                    r_ji,
                    pi_i: Box::new(pi_i),
                },
            );
        }
        s_i = s_i.add(&s_ji);
        s_i_blind = s_i_blind.add(&r_ji);
        q = q + 1;
    }
    Ok((s_i, s_i_blind))
}

/// Broadcast `i`, when it is not from `my`, holds place
/// `other_positions(bs, my, i).len()` among those not from `my`.
proof fn lemma_position_of<P>(bs: Seq<DkgInitBroadcast<P>>, my: usize, i: int)
    requires
        0 <= i < bs.len(),
        bs[i].dealer_idx != my,
    ensures
        other_positions(bs, my, i).len() < other_positions(bs, my, bs.len() as int).len(),
        other_positions(bs, my, bs.len() as int)[other_positions(bs, my, i).len() as int] == i,
{
    lemma_other_positions(bs, my, i + 1, bs.len() as int);
    let l = other_positions(bs, my, i).len() as int;
    assert(other_positions(bs, my, i + 1) == other_positions(bs, my, i).push(i));
    assert(other_positions(bs, my, i + 1)[l] == i);
    assert(other_positions(bs, my, i + 1)[l] == other_positions(bs, my, bs.len() as int)[l]);
}

/// Summing the pairs in the order of the other dealers' broadcasts is summing
/// what the receiver opens from each of them.
proof fn lemma_received_sum<P>(
    sk: int,
    bs: Seq<DkgInitBroadcast<P>>,
    my: usize,
    ds: Seq<Option<(Scalar, Scalar)>>,
    k: int,
    init: int,
    part: int,
)
    requires
        0 <= k <= bs.len(),
        ds.len() == other_positions(bs, my, bs.len() as int).len(),
        forall|j: int|
            0 <= j < ds.len() ==> (#[trigger] ds[j]) is Some && crate::encryption::elgamal::opened_values(ds)[j]
                == opened_share(sk, &bs[other_positions(bs, my, bs.len() as int)[j]].encrypted_shares, my),
    ensures
        other_positions(bs, my, k).len() <= ds.len(),
        received_sum(sk, bs, my, k, init, part) == opened_sum(ds, other_positions(bs, my, k).len() as int, init, part),
    decreases k,
{
    lemma_other_positions(bs, my, k, bs.len() as int);
    if k > 0 {
        lemma_received_sum(sk, bs, my, ds, k - 1, init, part);
        if bs[k - 1].dealer_idx != my {
            lemma_position_of(bs, my, k - 1);
            let l = other_positions(bs, my, k - 1).len() as int;
            assert(other_positions(bs, my, k) == other_positions(bs, my, k - 1).push(k - 1));
            assert(ds[l] is Some);
            assert(crate::encryption::elgamal::opened_values(ds)[l] == opened_share(sk, &bs[k - 1].encrypted_shares, my));
        }
    }
}

/// What an error of the decryption step reports of the broadcasts `bs` to
/// receiver `my` with key `sk`: a dealer whose proof of knowledge fails on
/// its own (or, when none does though the batched check failed, dealer `0`,
/// and then some other dealer's proof of knowledge is not honestly made),
/// a dealer that sent `my` no pair, or a dealer whose pair for `my` does not
/// open its commitment.
pub open spec fn decryption_error_blames<P>(e: DkgOutputError, sk: int, pk: Point, my: usize, bs: Seq<DkgInitBroadcast<P>>) -> bool {
    match e {
        DkgOutputError::InvalidEncryptionProof { dealer_idx } => (dealer_idx == 0 && exists|i: int|
            #![trigger bs[i]]
            0 <= i < bs.len() && bs[i].dealer_idx != my && !is_honest_pok(
                bs[i].encrypted_shares.u,
                bs[i].encrypted_shares.u@,
                bs[i].encrypted_shares.pok,
            )) || exists|i: int|
            #![trigger bs[i]]
            0 <= i < bs.len() && bs[i].dealer_idx == dealer_idx && dealer_idx != my && !batch_check(
                seq![(bs[i].encrypted_shares.u, bs[i].encrypted_shares.pok)],
            ),
        DkgOutputError::MissingCiphertext { dealer_idx, receiver_idx } => receiver_idx == my && exists|i: int|
            #![trigger bs[i]]
            0 <= i < bs.len() && bs[i].dealer_idx == dealer_idx && dealer_idx != my && opened_share(
                sk,
                &bs[i].encrypted_shares,
                my,
            ) is None,
        DkgOutputError::InvalidDecryptionOpening { dealer_idx, receiver_idx, s_ji, r_ji, pi_i } => receiver_idx == my
            && exists|i: int|
            #![trigger bs[i]]
            0 <= i < bs.len() && bs[i].dealer_idx == dealer_idx && dealer_idx != my && opened_share(
                sk,
                &bs[i].encrypted_shares,
                my,
            ) == Some((s_ji@, r_ji@)) && bs[i].pedvss@[my - 1]@ != com_dlog(s_ji@, r_ji@) && honest_decryption(
                bs[i].encrypted_shares.u,
                sk,
                pk,
                pi_i.0,
                pi_i.1,
            ),
        _ => false,
    }
}

fn decrypt_and_accumulate<P: WireCodec>(state: &PartyState, broadcasts: &[DkgInitBroadcast<P>], init: (Scalar, Scalar)) -> (r: Result<(Scalar, Scalar), DkgOutputError>)
    requires
        1 <= state.dealer_idx,
        forall|i: int| 0 <= i < broadcasts@.len() ==> (#[trigger] broadcasts@[i]).pedvss@.len() >= state.dealer_idx,
    ensures
        r matches Ok((s, b)) ==> {
            &&& all_received_open(state.enc_sk@, broadcasts@, state.dealer_idx)
            &&& s@ == received_sum(state.enc_sk@, broadcasts@, state.dealer_idx, broadcasts@.len() as int, init.0@, 0)
            &&& b@ == received_sum(state.enc_sk@, broadcasts@, state.dealer_idx, broadcasts@.len() as int, init.1@, 1)
        },
        r matches Err(e) ==> decryption_error_blames(e, state.enc_sk@, state.enc_pk, state.dealer_idx, broadcasts@),
{
    let my = state.dealer_idx;
    let ghost bs = broadcasts@;
    let ghost sk = state.enc_sk@;
    let mut other_msgs: Vec<&DkgInitBroadcast<P>> = Vec::new();
    let mut batches: Vec<&BatchEncryptedShares> = Vec::new();
    let mut i: usize = 0;
    while i < broadcasts.len()
        invariant
            i <= bs.len(),
            bs == broadcasts@,
            batches@.len() == other_msgs@.len(),
            batches@.len() == other_positions(bs, my, i as int).len(),
            forall|q: int|
                0 <= q < batches@.len() ==> *(#[trigger] batches@[q]) == bs[other_positions(bs, my, i as int)[q]].encrypted_shares,
            forall|q: int|
                0 <= q < other_msgs@.len() ==> *(#[trigger] other_msgs@[q]) == bs[other_positions(bs, my, i as int)[q]]
                    && other_msgs@[q].dealer_idx != my,
        decreases bs.len() - i,
    {
        if broadcasts[i].dealer_idx != my {
            other_msgs.push(&broadcasts[i]);
            batches.push(&broadcasts[i].encrypted_shares);
        }
        i = i + 1;
    }
    let decrypted = match decrypt_my_shares(&state.enc_sk, batches.as_slice(), my) {
        Ok(d) => d,
        Err(failed) => {
            let dealer_idx = if failed.len() > 0 && failed[0] < other_msgs.len() {
                proof {
                    crate::encryption::elgamal::lemma_failing_batches(batches@);
                    lemma_other_positions(bs, my, bs.len() as int, bs.len() as int);
                    let f0 = failed@[0] as int;
                    let i0 = other_positions(bs, my, bs.len() as int)[f0];
                    assert(*batches@[f0] == bs[i0].encrypted_shares);
                    assert(*other_msgs@[f0] == bs[i0]);
                    assert(bs[i0].dealer_idx == other_msgs@[f0].dealer_idx);
                }
                other_msgs[failed[0]].dealer_idx
            } else {
                proof {
                    let pairs = crate::encryption::elgamal::batch_pairs(batches@);
                    if crate::encryption::elgamal::pairs_honest(pairs) {
                        crate::encryption::elgamal::lemma_batch_check_honest(pairs);
                    }
                    let q = choose|q: int| 0 <= q < pairs.len() && !is_honest_pok((#[trigger] pairs[q]).0, pairs[q].0@, pairs[q].1);
                    lemma_other_positions(bs, my, bs.len() as int, bs.len() as int);
                    let i0 = other_positions(bs, my, bs.len() as int)[q];
                    assert(*batches@[q] == bs[i0].encrypted_shares);
                    assert(*other_msgs@[q] == bs[i0]);
                    assert(pairs[q] == (bs[i0].encrypted_shares.u, bs[i0].encrypted_shares.pok));
                }
                0
            };
            return Err(DkgOutputError::InvalidEncryptionProof { dealer_idx });
        },
    };
    let ghost pos = other_positions(bs, my, bs.len() as int);
    proof {
        lemma_other_positions(bs, my, bs.len() as int, bs.len() as int);
        assert forall|q: int| 0 <= q < other_msgs@.len() implies (#[trigger] other_msgs@[q]).pedvss@.len() >= my by {
            assert(*other_msgs@[q] == bs[pos[q]]);
        }
    }
    let r = accumulate_decrypted_shares(state, other_msgs.as_slice(), decrypted.as_slice(), init);
    proof {
        if r is Err {
            let e = r->Err_0;
            let ds = decrypted@;
            let q = choose|q: int|
                {
                    &&& 0 <= q < ds.len()
                    &&& !pair_opens(other_msgs@[q].pedvss@[my - 1], #[trigger] ds[q])
                    &&& forall|j: int| 0 <= j < q ==> pair_opens(other_msgs@[j].pedvss@[my - 1], ds[j])
                    &&& match ds[q] {
                        None => e == (DkgOutputError::MissingCiphertext { dealer_idx: other_msgs@[q].dealer_idx, receiver_idx: my }),
                        Some(p) => (e matches DkgOutputError::InvalidDecryptionOpening { dealer_idx, receiver_idx, s_ji, r_ji, pi_i }
                            && dealer_idx == other_msgs@[q].dealer_idx && receiver_idx == my && s_ji == p.0 && r_ji == p.1
                            && honest_decryption(other_msgs@[q].encrypted_shares.u, sk, state.enc_pk, pi_i.0, pi_i.1)),
                    }
                };
            let i0 = pos[q];
            assert(*other_msgs@[q] == bs[i0]);
            assert(*batches@[q] == bs[i0].encrypted_shares);
            assert(crate::encryption::elgamal::opened_values(ds)[q] == opened_share(sk, batches@[q], my));
            assert(decryption_error_blames(e, sk, state.enc_pk, my, bs));
        }
        if r is Ok {
            let ds = decrypted@;
            assert forall|j: int| 0 <= j < ds.len() implies (#[trigger] ds[j]) is Some
                && crate::encryption::elgamal::opened_values(ds)[j] == opened_share(sk, &bs[pos[j]].encrypted_shares, my) by {
                assert(pair_opens(other_msgs@[j].pedvss@[my - 1], ds[j]));
            }
            lemma_received_sum(sk, bs, my, ds, bs.len() as int, init.0@, 0);
            lemma_received_sum(sk, bs, my, ds, bs.len() as int, init.1@, 1);
            assert forall|i: int| 0 <= i < bs.len() && bs[i].dealer_idx != my implies {
                &&& (#[trigger] opened_share(sk, &bs[i].encrypted_shares, my)) is Some
                &&& bs[i].pedvss@[my - 1]@ == com_dlog(received(sk, bs, my, i).0, received(sk, bs, my, i).1)
            } by {
                lemma_position_of(bs, my, i);
                let j = other_positions(bs, my, i).len() as int;
                assert(pos[j] == i);
                assert(ds[j] is Some);
                assert(pair_opens(other_msgs@[j].pedvss@[my - 1], ds[j]));
                assert(crate::encryption::elgamal::opened_values(ds)[j] == opened_share(sk, &bs[i].encrypted_shares, my));
            }
        }
    }
    r
}

/// `sum_{i < j} bs[i].pedvss[k]`, reduced at every step.
pub open spec fn col_sum<P>(bs: Seq<DkgInitBroadcast<P>>, k: int, j: int) -> int
    decreases j,
{
    if j <= 0 {
        0
    } else {
        modl(col_sum(bs, k, j - 1) + bs[j - 1].pedvss@[k]@)
    }
}

/// `sum_{i < j} bs[i].f0_commitment`, reduced at every step.
pub open spec fn f0_sum<P>(bs: Seq<DkgInitBroadcast<P>>, j: int) -> int
    decreases j,
{
    if j <= 0 {
        0
    } else {
        modl(f0_sum(bs, j - 1) + bs[j - 1].f0_commitment@)
    }
}

fn aggregate_public_outputs<P>(n: usize, broadcasts: &[DkgInitBroadcast<P>]) -> (r: (Point, Vec<PedersenCommitment>))
    requires
        forall|i: int| 0 <= i < broadcasts@.len() ==> (#[trigger] broadcasts@[i]).pedvss@.len() == n,
    ensures
        r.0@ == f0_sum(broadcasts@, broadcasts@.len() as int),
        r.1@.len() == n,
        forall|k: int| 0 <= k < n ==> (#[trigger] r.1@[k])@ == col_sum(broadcasts@, k, broadcasts@.len() as int),
{
    let mut public_key = Point::identity();
    let mut i: usize = 0;
    while i < broadcasts.len()
        invariant
            i <= broadcasts@.len(),
            public_key@ == f0_sum(broadcasts@, i as int),
        decreases broadcasts@.len() - i,
    {
        public_key = public_key.add(&broadcasts[i].f0_commitment);
        i = i + 1;
    }
    let mut keys: Vec<PedersenCommitment> = Vec::new();
    let mut k: usize = 0;
    while k < n
        invariant
            k <= n,
            keys@.len() == k,
            forall|i: int| 0 <= i < broadcasts@.len() ==> (#[trigger] broadcasts@[i]).pedvss@.len() == n,
            forall|q: int| 0 <= q < k ==> (#[trigger] keys@[q])@ == col_sum(broadcasts@, q, broadcasts@.len() as int),
        decreases n - k,
    {
        let mut agg = Point::identity();
        let mut i: usize = 0;
        while i < broadcasts.len()
            invariant
                i <= broadcasts@.len(),
                k < n,
                forall|j: int| 0 <= j < broadcasts@.len() ==> (#[trigger] broadcasts@[j]).pedvss@.len() == n,
                agg@ == col_sum(broadcasts@, k as int, i as int),
            decreases broadcasts@.len() - i,
        {
            agg = agg.add(broadcasts[i].pedvss[k].point());
            i = i + 1;
        }
        keys.push(PedersenCommitment::from_point(agg));
        k = k + 1;
    }
    (public_key, keys)
}

/// What the output phase establishes of the broadcasts before it sums.
pub open spec fn broadcasts_accepted<S: PolyProofScheme>(
    dkg_params: DkgParams,
    proof_params: S::Params,
    my: usize,
    bs: Seq<DkgInitBroadcast<S::Proof>>,
    parties: Parties,
) -> bool where S::Proof: WireCodec {
    let n = dkg_params.n as int;
    &&& n > 0
    &&& 1 <= my <= n
    &&& forall|i: int| 0 <= i < bs.len() ==> broadcast_ok(n, parties, #[trigger] bs[i])
    &&& one_per_dealer(n, bs)
    &&& forall|i: int| 0 <= i < bs.len() ==> proof_accepted::<S>(proof_params, #[trigger] bs[i], n, dkg_params.t as int)
}

/// The output a party computes from accepted broadcasts.
pub open spec fn output_matches<P>(out: DkgOutput, sk: int, my: usize, n: int, local: DkgInitLocalState, bs: Seq<DkgInitBroadcast<P>>) -> bool {
    &&& out.idx == my
    &&& all_received_open(sk, bs, my)
    &&& out.secret_share@ == received_sum(sk, bs, my, bs.len() as int, local.my_share@, 0)
    &&& out.blinding_share@ == received_sum(sk, bs, my, bs.len() as int, local.my_blinding@, 1)
    &&& out.public_key@ == f0_sum(bs, bs.len() as int)
    &&& out.partial_verification_keys@.len() == n
    &&& forall|k: int| 0 <= k < n ==> (#[trigger] out.partial_verification_keys@[k])@ == col_sum(bs, k, bs.len() as int)
}

/// What an error of the output phase reports: a broken shape of the
/// broadcasts, the dealer of a broadcast whose signature fails, the dealer of
/// a broadcast whose proof is refused, or what the decryption step reports.
pub open spec fn output_error_blames<S: PolyProofScheme>(
    e: DkgOutputError,
    dkg_params: DkgParams,
    proof_params: S::Params,
    sk: int,
    pk: Point,
    my: usize,
    bs: Seq<DkgInitBroadcast<S::Proof>>,
    parties: Parties,
) -> bool where S::Proof: WireCodec {
    match e {
        DkgOutputError::InvalidParameters => !init_structure_ok(dkg_params.n as int, my, bs),
        DkgOutputError::InvalidSignature { dealer_idx } => exists|i: int|
            #![trigger bs[i]]
            0 <= i < bs.len() && bs[i].dealer_idx == dealer_idx && !init_signature_ok(
                bs[i],
                parties.parties@[dealer_idx - 1].sig_pk,
            ),
        DkgOutputError::InvalidBatchProof { dealer_idx } => exists|i: int|
            #![trigger bs[i]]
            0 <= i < bs.len() && bs[i].dealer_idx == dealer_idx && proof_refused::<S>(
                proof_params,
                bs[i],
                dkg_params.n as int,
                dkg_params.t as int,
            ),
        _ => decryption_error_blames(e, sk, pk, my, bs),
    }
}

/// Output phase: checks every broadcast, opens and sums the shares sent to
/// this party, and aggregates the public key and the verification keys.
/// Every error names what misbehaved.
pub fn dkg_output_key_generation<S: PolyProofScheme>(
    dkg_params: &DkgParams,
    proof_params: &S::Params,
    state: &PartyState,
    local: &DkgInitLocalState,
    broadcasts: &[DkgInitBroadcast<S::Proof>],
    parties: &Parties,
) -> (r: Result<DkgOutput, DkgOutputError>) where S::Proof: WireCodec
    requires
        parties.parties@.len() >= dkg_params.n,
    ensures
        r matches Ok(out) ==> broadcasts_accepted::<S>(*dkg_params, *proof_params, state.dealer_idx, broadcasts@, *parties)
            && output_matches(out, state.enc_sk@, state.dealer_idx, dkg_params.n as int, *local, broadcasts@),
        !(dkg_params.n > 0 && 1 <= state.dealer_idx <= dkg_params.n) ==> r matches Err(DkgOutputError::InvalidParameters),
        r matches Err(e) ==> output_error_blames::<S>(
            e,
            *dkg_params,
            *proof_params,
            state.enc_sk@,
            state.enc_pk,
            state.dealer_idx,
            broadcasts@,
            *parties,
        ),
        r matches Err(e) ==> output_error_in_order::<S>(
            e,
            *dkg_params,
            *proof_params,
            state.dealer_idx,
            broadcasts@,
            *parties,
            false,
        ),
{
    match validate_broadcasts(dkg_params.n, state.dealer_idx, broadcasts, parties) {
        Ok(()) => {},
        Err(e) => {
            return Err(e);
        },
    }
    match verify_poly_proofs::<S>(dkg_params, proof_params, broadcasts) {
        Ok(()) => {},
        Err(e) => {
            return Err(e);
        },
    }
    let (s_i, s_i_blind) = match decrypt_and_accumulate(state, broadcasts, (local.my_share, local.my_blinding)) {
        Ok(x) => x,
        Err(e) => {
            return Err(e);
        },
    };
    let (public_key, partial_verification_keys) = aggregate_public_outputs(dkg_params.n, broadcasts);
    Ok(DkgOutput {
        idx: state.dealer_idx,
        secret_share: s_i,
        blinding_share: s_i_blind,
        public_key,
        partial_verification_keys,
    })
}

/// Some broadcast among the first `j` comes from `my`.
pub open spec fn own_before<P>(bs: Seq<DkgInitBroadcast<P>>, my: usize, j: int) -> bool {
    exists|i: int| 0 <= i < j && #[trigger] bs[i].dealer_idx == my
}

/// Adding two commitments adds their openings, whatever the reductions.
proof fn lemma_com_dlog_add(a: int, b: int, x: int, y: int)
    ensures
        modl(com_dlog(a, b) + com_dlog(x, y)) == com_dlog(modl(a + x), modl(b + y)),
{
    crate::pedersen::lemma_pedersen_homomorphic(a, b, x, y);
    let h = crate::group::h_dlog();
    crate::arith::lemma_modl_idem(a + x);
    crate::arith::lemma_modl_idem(b + y);
    crate::arith::lemma_modl_mul_cong(modl(b + y), h, b + y, h);
    crate::arith::lemma_modl_add_cong(modl(a + x), modl(b + y) * h, a + x, (b + y) * h);
}

#[verifier::spinoff_prover]
#[verifier::rlimit(40)]
proof fn lemma_col_sum_opens<P>(sk: int, bs: Seq<DkgInitBroadcast<P>>, my: usize, n: int, a0: int, b0: int, j: int)
    requires
        1 <= my <= n,
        0 <= j <= bs.len(),
        forall|i: int, k: int| 0 <= i < k < bs.len() ==> bs[i].dealer_idx != bs[k].dealer_idx,
        forall|i: int| 0 <= i < bs.len() ==> (#[trigger] bs[i]).pedvss@.len() == n,
        all_received_open(sk, bs, my),
        forall|i: int|
            0 <= i < bs.len() && (#[trigger] bs[i]).dealer_idx == my ==> bs[i].pedvss@[my - 1]@ == com_dlog(a0, b0),
    ensures
        own_before(bs, my, j) ==> col_sum(bs, my - 1, j) == com_dlog(
            received_sum(sk, bs, my, j, a0, 0),
            received_sum(sk, bs, my, j, b0, 1),
        ),
        !own_before(bs, my, j) ==> modl(col_sum(bs, my - 1, j) + com_dlog(a0, b0)) == com_dlog(
            received_sum(sk, bs, my, j, a0, 0),
            received_sum(sk, bs, my, j, b0, 1),
        ),
    decreases j,
{
    let k = my - 1;
    if j == 0 {
        crate::arith::lemma_modl_idem(a0 + b0 * crate::group::h_dlog());
    } else {
        lemma_col_sum_opens(sk, bs, my, n, a0, b0, j - 1);
        let m = bs[j - 1];
        let col = col_sum(bs, k, j - 1);
        let ra = received_sum(sk, bs, my, j - 1, a0, 0);
        let rb = received_sum(sk, bs, my, j - 1, b0, 1);
        let c0 = com_dlog(a0, b0);
        if m.dealer_idx != my {
            let x = received(sk, bs, my, j - 1);
            assert(m.pedvss@[k]@ == com_dlog(x.0, x.1));
            lemma_com_dlog_add(ra, rb, x.0, x.1);
            assert(own_before(bs, my, j) == own_before(bs, my, j - 1)) by {
                if own_before(bs, my, j) {
                    let i = choose|i: int| 0 <= i < j && #[trigger] bs[i].dealer_idx == my;
                    assert(i != j - 1);
                }
            }
            if !own_before(bs, my, j - 1) {
                lemma_modl_add(col + com_dlog(x.0, x.1), c0);
                lemma_modl_add(col + c0, com_dlog(x.0, x.1));
                crate::arith::lemma_modl_add_cong(col + c0, com_dlog(x.0, x.1), modl(col + c0), com_dlog(x.0, x.1));
                crate::arith::lemma_modl_idem(col + c0);
            }
        } else {
            assert(!own_before(bs, my, j - 1)) by {
                if own_before(bs, my, j - 1) {
                    let i = choose|i: int| 0 <= i < j - 1 && #[trigger] bs[i].dealer_idx == my;
                    assert(bs[i].dealer_idx != bs[j - 1].dealer_idx);
                }
            }
            assert(bs[j - 1].dealer_idx == my);
            assert(own_before(bs, my, j));
        }
    }
}

/// Every party's output share opens its own partial verification key: when
/// the accepted broadcasts hold exactly one from each dealer, every other
/// dealer's pair opens that dealer's commitment for this party, and the
/// party's own kept pair opens its own commitment, then the summed share and
/// blinding open the summed commitment.
pub proof fn lemma_output_share_opens_key<P>(
    sk: int,
    bs: Seq<DkgInitBroadcast<P>>,
    my: usize,
    n: int,
    local: DkgInitLocalState,
)
    requires
        1 <= my <= n,
        one_per_dealer(n, bs),
        forall|i: int| 0 <= i < bs.len() ==> (#[trigger] bs[i]).pedvss@.len() == n,
        all_received_open(sk, bs, my),
        forall|i: int|
            0 <= i < bs.len() && (#[trigger] bs[i]).dealer_idx == my ==> bs[i].pedvss@[my - 1]@
                == com_dlog(local.my_share@, local.my_blinding@),
    ensures
        col_sum(bs, my - 1, bs.len() as int) == com_dlog(
            received_sum(sk, bs, my, bs.len() as int, local.my_share@, 0),
            received_sum(sk, bs, my, bs.len() as int, local.my_blinding@, 1),
        ),
{
    lemma_col_sum_opens(sk, bs, my, n, local.my_share@, local.my_blinding@, bs.len() as int);
    assert(has_dealer(bs, my as int));
    let i = choose|i: int| 0 <= i < bs.len() && #[trigger] bs[i].dealer_idx == my as int;
    assert(own_before(bs, my, bs.len() as int));
}

/// The broadcast and local state come from a polynomial `a` of degree `t`
/// with `a_0 = share` and blindings `w`: `C_j = g^{a(j)} h^{w_j}`,
/// `f0 = g^{a_0}`, and the dealer keeps `a(i)` and `w_i` for itself.
pub open spec fn dealt_from<P>(res: DkgInitResult<P>, a: Seq<int>, w: Seq<int>, share: int, my: usize, n: int, t: int) -> bool {
    let m = res.broadcast;
    &&& a.len() == t + 1
    &&& a[0] == share
    &&& w.len() == n
    &&& m.pedvss@.len() == n
    &&& forall|j: int| 0 <= j < n ==> (#[trigger] m.pedvss@[j])@ == com_dlog(poly_eval(a, j + 1), w[j])
    &&& m.f0_commitment@ == modl(a[0])
    &&& res.local.my_share@ == poly_eval(a, my as int)
    &&& res.local.my_blinding@ == w[my - 1]
}

/// An honest first phase of party `state` dealing `share`: the broadcast is
/// dealt from a polynomial, its batch key carries an honest proof of
/// knowledge, and the party signed it.
pub open spec fn init_honest<P: WireCodec>(res: DkgInitResult<P>, state: PartyState, share: int, n: int, t: int) -> bool {
    &&& res.broadcast.dealer_idx == state.dealer_idx
    &&& exists|a: Seq<int>, w: Seq<int>| dealt_from(res, a, w, share, state.dealer_idx, n, t)
    &&& exists|alpha: int|
        res.broadcast.encrypted_shares.u@ == alpha && is_honest_pok(
            res.broadcast.encrypted_shares.u,
            alpha,
            res.broadcast.encrypted_shares.pok,
        )
    &&& res.broadcast.signature.bytes@ == ed25519_signature(state.sig_sk.bytes@, init_signed_bytes(res.broadcast))
    &&& signed_by(state.sig_sk.bytes@, init_signed_bytes(res.broadcast), res.broadcast.signature.bytes@)
}

/// The slot of the `q`-th other party when party `my` is left out.
pub open spec fn recv_slot(my: usize, q: int) -> int {
    if q + 1 < my {
        q + 1
    } else {
        q + 2
    }
}

/// The batch holds, for every party `k` in `1..n` other than the dealer, the
/// pair `(a(k), w_k)` masked for `k`'s encryption key under the ephemeral key
/// `alpha`.
pub open spec fn batch_dealt(b: BatchEncryptedShares, alpha: int, a: Seq<int>, w: Seq<int>, my: usize, n: int, parties: Parties) -> bool {
    forall|k: int|
        1 <= k <= n && k != my ==> #[trigger] b.shares@.contains_key(k as usize) && (
            b.shares@[k as usize].v1@,
            b.shares@[k as usize].v2@,
        ) == masked_share(parties.parties@[k - 1].enc_pk@, alpha, poly_eval(a, k), w[k - 1])
}

/// The first phase encrypted every other party's evaluation and blinding to
/// that party, from the polynomial it dealt.
pub open spec fn shares_encrypted<P>(res: DkgInitResult<P>, share: int, my: usize, n: int, t: int, parties: Parties) -> bool {
    exists|a: Seq<int>, w: Seq<int>|
        #![trigger dealt_from(res, a, w, share, my, n, t)]
        dealt_from(res, a, w, share, my, n, t) && batch_dealt(
            res.broadcast.encrypted_shares,
            res.broadcast.encrypted_shares.u@,
            a,
            w,
            my,
            n,
            parties,
        )
}

/// The broadcast's proof was made by the proof system on the statement the
/// broadcast defines, from a witness that opens that statement.
pub open spec fn proof_dealt<S: PolyProofScheme>(params: S::Params, m: DkgInitBroadcast<S::Proof>, n: int, t: int) -> bool {
    exists|stmt: PolyWellFormedStatement, wit: PolyWellFormedWitness|
        statement_of(stmt, m, n, t) && poly_relation(stmt, wit) && S::proof_honest(&params, &stmt, &wit, &m.proof)
}

/// The proof system may come back without a proof on a statement of this
/// protocol's shape: the points `1..n` and a polynomial of degree `t` with
/// constant term `share` that opens the commitments.
pub open spec fn prove_may_fail<S: PolyProofScheme>(params: S::Params, share: int, n: int, t: int) -> bool {
    exists|stmt: PolyWellFormedStatement, wit: PolyWellFormedWitness|
        #![trigger S::prove_fails(&params, &stmt, &wit)]
        stmt.x_points@.len() == n && (forall|i: int| 0 <= i < n ==> (#[trigger] stmt.x_points@[i])@ == i + 1)
            && stmt.degree == t && poly_relation(stmt, wit) && wit.coeffs@[0]@ == share && S::prove_fails(
            &params,
            &stmt,
            &wit,
        )
}

/// What the proof system needs of statements and witnesses of this shape.
pub open spec fn prove_ready<S: PolyProofScheme>(params: S::Params, n: int, t: int) -> bool {
    forall|stmt: PolyWellFormedStatement, wit: PolyWellFormedWitness|
        stmt.x_points@.len() == n && stmt.commitments@.len() == n && stmt.degree == t
            && wit.coeffs@.len() == t + 1 && wit.blindings@.len() == n ==> #[trigger] S::prove_requires(
            &params,
            &stmt,
            &wit,
        )
}

/// First phase: deals `share` with a random polynomial of degree `t`,
/// commits to the evaluations, proves the commitments well formed, encrypts
/// every other party's evaluation to it, and signs the broadcast. `None` only
/// when the proof system makes no proof.
pub fn dkg_initiate<S: PolyProofScheme>(
    dkg_params: &DkgParams,
    proof_params: &S::Params,
    state: &PartyState,
    share: Scalar,
    parties: &Parties,
) -> (r: Option<DkgInitResult<S::Proof>>) where S::Proof: WireCodec
    requires
        dkg_params.n > 0,
        1 <= state.dealer_idx <= dkg_params.n,
        parties.parties@.len() == dkg_params.n,
        dkg_params.t < dkg_params.n,
        prove_ready::<S>(*proof_params, dkg_params.n as int, dkg_params.t as int),
    ensures
        r matches Some(res) ==> init_honest(res, *state, share@, dkg_params.n as int, dkg_params.t as int),
        r matches Some(res) ==> proof_dealt::<S>(*proof_params, res.broadcast, dkg_params.n as int, dkg_params.t as int),
        r is None ==> prove_may_fail::<S>(*proof_params, share@, dkg_params.n as int, dkg_params.t as int),
        r matches Some(res) ==> shares_encrypted(res, share@, state.dealer_idx, dkg_params.n as int, dkg_params.t as int, *parties),
{
    let n = dkg_params.n;
    let t = dkg_params.t;
    let my = state.dealer_idx;
    let coeffs = sample_random_polynomial_with_constant(t, share);
    let mut blindings: Vec<Scalar> = Vec::new();
    let mut j: usize = 0;
    while j < n
        invariant
            j <= n,
            blindings@.len() == j,
        decreases n - j,
    {
        blindings.push(Scalar::random());
        j = j + 1;
    }
    let evaluations = eval_poly_on_1_to_n(coeffs.as_slice(), n);
    let ghost a = svals(coeffs@);
    let ghost w = svals(blindings@);
    let pedvss = PedersenCommitment::new_many(evaluations.as_slice(), blindings.as_slice());
    assert(forall|q: int| 0 <= q < n ==> (#[trigger] pedvss@[q])@ == com_dlog(poly_eval(a, q + 1), w[q]));
    let f0_commitment = Point::basepoint_mul(&coeffs[0]);
    let stmt = PolyWellFormedStatement {
        x_points: domain_points_1_to_n(n),
        commitments: copy_commitments(&pedvss),
        f0_commitment,
        degree: t,
    };
    let wit = PolyWellFormedWitness { coeffs: coeffs.clone(), blindings: blindings.clone() };
    assert(S::prove_requires(proof_params, &stmt, &wit));
    proof {
        assert(svals(wit.coeffs@) =~= a);
        assert forall|q: int| 0 <= q < n implies (#[trigger] stmt.commitments@[q])@ == com_dlog(
            poly_eval(svals(wit.coeffs@), stmt.x_points@[q]@),
            wit.blindings@[q]@,
        ) by {
            assert(pedvss@[q]@ == com_dlog(poly_eval(a, q + 1), w[q]));
        }
        assert(poly_relation(stmt, wit));
    }
    let proof = match S::prove(proof_params, &stmt, &wit) {
        Some(p) => p,
        None => {
            proof {
                crate::arith::lemma_modl_bound(share@);
                assert(wit.coeffs@[0]@ == share@);
            }
            return None;
        },
    };
    let mut receivers: Vec<(usize, Point)> = Vec::new();
    let mut m1s: Vec<Scalar> = Vec::new();
    let mut m2s: Vec<Scalar> = Vec::new();
    let mut j: usize = 0;
    while j < n
        invariant
            j <= n,
            parties.parties@.len() == n,
            evaluations@.len() == n,
            blindings@.len() == n,
            receivers@.len() == m1s@.len(),
            receivers@.len() == m2s@.len(),
            1 <= my <= n,
            receivers@.len() == (if j < my { j as int } else { j - 1 }),
            forall|q: int|
                0 <= q < receivers@.len() ==> {
                    &&& (#[trigger] receivers@[q]).0 == recv_slot(my, q)
                    &&& receivers@[q].1 == parties.parties@[recv_slot(my, q) - 1].enc_pk
                    &&& m1s@[q] == evaluations@[recv_slot(my, q) - 1]
                    &&& m2s@[q] == blindings@[recv_slot(my, q) - 1]
                },
        decreases n - j,
    {
        if j + 1 != my {
            receivers.push((j + 1, *parties.enc_pk(j + 1)));
            m1s.push(evaluations[j]);
            m2s.push(blindings[j]);
        }
        j = j + 1;
    }
    let encrypted_shares = encrypt_batch(receivers.as_slice(), m1s.as_slice(), m2s.as_slice());
    proof {
        let alpha = encrypted_shares.u@;
        assert forall|i: int, k: int| 0 <= i < k < receivers@.len() implies receivers@[i].0 < receivers@[k].0 by {
            assert(receivers@[i].0 == recv_slot(my, i) && receivers@[k].0 == recv_slot(my, k));
        }
        assert forall|k: int| 1 <= k <= n && k != my implies #[trigger] encrypted_shares.shares@.contains_key(k as usize) && (
            encrypted_shares.shares@[k as usize].v1@,
            encrypted_shares.shares@[k as usize].v2@,
        ) == masked_share(parties.parties@[k - 1].enc_pk@, alpha, poly_eval(a, k), w[k - 1]) by {
            let q = if k < my { k - 1 } else { k - 2 };
            assert(receivers@[q].0 == k);
            crate::encryption::elgamal::lemma_batch_shares_lookup(receivers@, m1s@, m2s@, alpha, q);
            assert(share_values(encrypted_shares.shares@).contains_key(k as usize));
        }
        assert(batch_dealt(encrypted_shares, alpha, a, w, my, n as int, *parties));
    }
    let local = DkgInitLocalState { my_share: evaluations[my - 1], my_blinding: blindings[my - 1] };
    let broadcast = DkgInitBroadcast::new(my, pedvss, f0_commitment, proof, encrypted_shares, &state.sig_sk);
    let res = DkgInitResult { broadcast, local };
    proof {
        crate::arith::lemma_modl_bound(share@);
        assert(my == state.dealer_idx && n == dkg_params.n && t == dkg_params.t);
        assert(dealt_from(res, a, w, share@, my, n as int, t as int));
        assert(exists|a: Seq<int>, w: Seq<int>| dealt_from(res, a, w, share@, my, n as int, t as int));
        assert(exists|alpha: int|
            res.broadcast.encrypted_shares.u@ == alpha && is_honest_pok(
                res.broadcast.encrypted_shares.u,
                alpha,
                res.broadcast.encrypted_shares.pok,
            ));
        assert(res.broadcast.signature.bytes@ == ed25519_signature(state.sig_sk.bytes@, init_signed_bytes(res.broadcast)));
        assert(init_honest(res, *state, share@, dkg_params.n as int, dkg_params.t as int));
        assert(statement_of(stmt, res.broadcast, n as int, t as int));
        assert(svals(wit.coeffs@) =~= a);
        assert forall|q: int| 0 <= q < n implies (#[trigger] stmt.commitments@[q])@ == com_dlog(
            poly_eval(svals(wit.coeffs@), stmt.x_points@[q]@),
            wit.blindings@[q]@,
        ) by {
            assert(pedvss@[q]@ == com_dlog(poly_eval(a, q + 1), w[q]));
        }
        assert(poly_relation(stmt, wit));
        assert(S::proof_honest(proof_params, &stmt, &wit, &res.broadcast.proof));
        assert(shares_encrypted(res, share@, my, n as int, t as int, *parties));
    }
    Some(res)
}

/// `w` carries some broadcast signed by its dealer, as `to_wire` writes it.
pub open spec fn wire_carries_init<P: WireCodec>(w: Seq<u8>, parties: Parties) -> bool {
    exists|m: DkgInitBroadcast<P>| #[trigger] init_on_wire(w, m, parties)
}

/// Decodes and authenticates every received message; fails unless every
/// message carries a broadcast signed by its dealer.
pub fn decode_broadcasts<P: WireCodec>(wire_msgs: &[Vec<u8>], parties: &Parties) -> (r: Result<Vec<DkgInitBroadcast<P>>, DkgOutputError>)
    ensures
        r matches Ok(v) ==> v@.len() == wire_msgs@.len() && forall|i: int|
            0 <= i < v@.len() ==> #[trigger] init_on_wire(wire_msgs@[i]@, v@[i], *parties),
        r is Ok <==> forall|i: int| 0 <= i < wire_msgs@.len() ==> wire_carries_init::<P>(#[trigger] wire_msgs@[i]@, *parties),
        r matches Err(e) ==> e matches DkgOutputError::InvalidWire,
{
    let mut out: Vec<DkgInitBroadcast<P>> = Vec::new();
    let mut i: usize = 0;
    while i < wire_msgs.len()
        invariant
            i <= wire_msgs@.len(),
            out@.len() == i,
            forall|q: int| 0 <= q < i ==> #[trigger] init_on_wire(wire_msgs@[q]@, out@[q], *parties),
        decreases wire_msgs@.len() - i,
    {
        match DkgInitBroadcast::<P>::from_wire(wire_msgs[i].as_slice(), parties) {
            Ok(m) => {
                out.push(m);
            },
            Err(_) => {
                assert(!wire_carries_init::<P>(wire_msgs@[i as int]@, *parties));
                return Err(DkgOutputError::InvalidWire);
            },
        }
        i = i + 1;
    }
    proof {
        assert forall|q: int| 0 <= q < wire_msgs@.len() implies wire_carries_init::<P>(#[trigger] wire_msgs@[q]@, *parties) by {
            assert(init_on_wire(wire_msgs@[q]@, out@[q], *parties));
        }
    }
    Ok(out)
}

/// Structural checks only: the signatures were checked while decoding.
fn validate_decoded<P>(n: usize, my_idx: usize, broadcasts: &[DkgInitBroadcast<P>]) -> (r: Result<(), DkgOutputError>)
    ensures
        r is Ok <==> (n > 0 && 1 <= my_idx <= n && (forall|i: int|
            0 <= i < broadcasts@.len() ==> 1 <= (#[trigger] broadcasts@[i]).dealer_idx <= n
                && broadcasts@[i].pedvss@.len() == n) && one_per_dealer(n as int, broadcasts@)),
        r matches Err(e) ==> e matches DkgOutputError::InvalidParameters,
{
    if n == 0 || my_idx == 0 || my_idx > n {
        return Err(DkgOutputError::InvalidParameters);
    }
    let ghost bs = broadcasts@;
    let mut seen: Vec<bool> = Vec::new();
    let mut k: usize = 0;
    while k < n
        invariant
            k <= n,
            seen@.len() == k,
            forall|q: int| 0 <= q < k ==> !seen@[q],
        decreases n - k,
    {
        seen.push(false);
        k = k + 1;
    }
    let mut i: usize = 0;
    while i < broadcasts.len()
        invariant
            i <= bs.len(),
            bs == broadcasts@,
            n > 0,
            1 <= my_idx <= n,
            seen@.len() == n,
            forall|q: int| 0 <= q < i ==> 1 <= (#[trigger] bs[q]).dealer_idx <= n && bs[q].pedvss@.len() == n,
            forall|a: int, b: int| 0 <= a < b < i ==> bs[a].dealer_idx != bs[b].dealer_idx,
            forall|s: int| 0 <= s < n ==> (seen@[s] <==> exists|q: int| 0 <= q < i && #[trigger] bs[q].dealer_idx == s + 1),
        decreases bs.len() - i,
    {
        let msg = &broadcasts[i];
        if msg.dealer_idx == 0 || msg.dealer_idx > n || msg.pedvss.len() != n {
            return Err(DkgOutputError::InvalidParameters);
        }
        let slot = msg.dealer_idx - 1;
        if seen[slot] {
            proof {
                let q = choose|q: int| 0 <= q < i && #[trigger] bs[q].dealer_idx == slot + 1;
                assert(bs[q].dealer_idx == bs[i as int].dealer_idx);
            }
            return Err(DkgOutputError::InvalidParameters);
        }
        let ghost old_seen = seen@;
        seen.set(slot, true);
        proof {
            assert forall|s: int| 0 <= s < n implies (seen@[s] <==> exists|q: int| 0 <= q < i + 1 && #[trigger] bs[q].dealer_idx == s + 1) by {
                if s == slot {
                    assert(bs[i as int].dealer_idx == s + 1);
                } else {
                    if seen@[s] {
                        assert(old_seen[s]);
                    }
                    if exists|q: int| 0 <= q < i + 1 && #[trigger] bs[q].dealer_idx == s + 1 {
                        let q = choose|q: int| 0 <= q < i + 1 && #[trigger] bs[q].dealer_idx == s + 1;
                        assert(q != i);
                        assert(old_seen[s]);
                    }
                }
            }
        }
        i = i + 1;
    }
    let mut k: usize = 0;
    while k < n
        invariant
            k <= n,
            seen@.len() == n,
            bs == broadcasts@,
            forall|q: int| 0 <= q < k ==> seen@[q],
            forall|s: int| 0 <= s < n ==> (seen@[s] <==> exists|q: int| 0 <= q < bs.len() && #[trigger] bs[q].dealer_idx == s + 1),
        decreases n - k,
    {
        if !seen[k] {
            proof {
                if has_dealer(bs, k + 1) {
                    assert(seen@[k as int]);
                }
                assert(!one_per_dealer(n as int, bs));
            }
            return Err(DkgOutputError::InvalidParameters);
        }
        k = k + 1;
    }
    proof {
        assert forall|kk: int| 1 <= kk <= n implies #[trigger] has_dealer(bs, kk) by {
            assert(seen@[kk - 1]);
        }
    }
    Ok(())
}

/// Output phase driven from the channel: each message is authenticated over
/// the bytes as received and decoded once.
/// What an error of the output phase over received messages reports: a
/// message that carries no signed broadcast, or, of the broadcasts the
/// messages carry, what the output phase reports.
pub open spec fn wire_output_error_blames<S: PolyProofScheme>(
    e: DkgOutputError,
    dkg_params: DkgParams,
    proof_params: S::Params,
    sk: int,
    pk: Point,
    my: usize,
    wires: Seq<Vec<u8>>,
    parties: Parties,
) -> bool where S::Proof: WireCodec {
    ||| (e matches DkgOutputError::InvalidWire && exists|i: int|
        0 <= i < wires.len() && !wire_carries_init::<S::Proof>(#[trigger] wires[i]@, parties))
    ||| exists|bs: Seq<DkgInitBroadcast<S::Proof>>|
        {
            &&& bs.len() == wires.len()
            &&& forall|i: int| 0 <= i < bs.len() ==> #[trigger] init_on_wire(wires[i]@, bs[i], parties)
            &&& output_error_blames::<S>(e, dkg_params, proof_params, sk, pk, my, bs, parties)
            &&& output_error_in_order::<S>(e, dkg_params, proof_params, my, bs, parties, true)
        }
}

pub fn dkg_output_key_generation_from_wire<S: PolyProofScheme>(
    dkg_params: &DkgParams,
    proof_params: &S::Params,
    state: &PartyState,
    local: &DkgInitLocalState,
    wire_msgs: &[Vec<u8>],
    parties: &Parties,
) -> (r: Result<DkgOutput, DkgOutputError>) where S::Proof: WireCodec
    ensures
        r matches Ok(out) ==> exists|bs: Seq<DkgInitBroadcast<S::Proof>>| {
            &&& bs.len() == wire_msgs@.len()
            &&& forall|i: int| 0 <= i < bs.len() ==> #[trigger] init_on_wire(wire_msgs@[i]@, bs[i], *parties)
            &&& broadcasts_accepted::<S>(*dkg_params, *proof_params, state.dealer_idx, bs, *parties)
            &&& output_matches(out, state.enc_sk@, state.dealer_idx, dkg_params.n as int, *local, bs)
        },
        !(forall|i: int| 0 <= i < wire_msgs@.len() ==> wire_carries_init::<S::Proof>(#[trigger] wire_msgs@[i]@, *parties))
            ==> r matches Err(DkgOutputError::InvalidWire),
        r matches Err(e) ==> wire_output_error_blames::<S>(
            e,
            *dkg_params,
            *proof_params,
            state.enc_sk@,
            state.enc_pk,
            state.dealer_idx,
            wire_msgs@,
            *parties,
        ),
{
    let broadcasts = match decode_broadcasts::<S::Proof>(wire_msgs, parties) {
        Ok(b) => b,
        Err(e) => {
            return Err(e);
        },
    };
    proof {
        assert forall|i: int| 0 <= i < broadcasts@.len() implies #[trigger] init_on_wire(wire_msgs@[i]@, broadcasts@[i], *parties) by {
            assert(init_on_wire(wire_msgs@[i]@, broadcasts@[i], *parties));
        }
    }
    match validate_decoded(dkg_params.n, state.dealer_idx, broadcasts.as_slice()) {
        Ok(()) => {},
        Err(e) => {
            return Err(e);
        },
    }
    proof {
        let bs = broadcasts@;
        assert forall|i: int| 0 <= i < bs.len() implies broadcast_ok(dkg_params.n as int, *parties, #[trigger] bs[i]) by {
            assert(init_on_wire(wire_msgs@[i]@, bs[i], *parties));
        }
        assert(broadcasts_validated(dkg_params.n as int, state.dealer_idx, bs, *parties));
    }
    match verify_poly_proofs::<S>(dkg_params, proof_params, broadcasts.as_slice()) {
        Ok(()) => {},
        Err(e) => {
            return Err(e);
        },
    }
    let (s_i, s_i_blind) = match decrypt_and_accumulate(state, broadcasts.as_slice(), (local.my_share, local.my_blinding)) {
        Ok(x) => x,
        Err(e) => {
            return Err(e);
        },
    };
    let (public_key, partial_verification_keys) = aggregate_public_outputs(dkg_params.n, broadcasts.as_slice());
    let out = DkgOutput {
        idx: state.dealer_idx,
        secret_share: s_i,
        blinding_share: s_i_blind,
        public_key,
        partial_verification_keys,
    };
    proof {
        let bs = broadcasts@;
        assert forall|i: int| 0 <= i < bs.len() implies broadcast_ok(dkg_params.n as int, *parties, #[trigger] bs[i]) by {
            assert(init_on_wire(wire_msgs@[i]@, bs[i], *parties));
        }
        assert forall|i: int| 0 <= i < bs.len() implies #[trigger] init_on_wire(wire_msgs@[i]@, bs[i], *parties) by {
            assert(init_on_wire(wire_msgs@[i]@, broadcasts@[i], *parties));
        }
    }
    Ok(out)
}

/// Structure first, then every signature.
fn validate_broadcasts_parallel<P: WireCodec>(n: usize, my_idx: usize, broadcasts: &[DkgInitBroadcast<P>], parties: &Parties) -> (r: Result<(), DkgOutputError>)
    requires
        parties.parties@.len() >= n,
    ensures
        r is Ok <==> (n > 0 && 1 <= my_idx <= n && (forall|i: int|
            0 <= i < broadcasts@.len() ==> broadcast_ok(n as int, *parties, #[trigger] broadcasts@[i]))
            && one_per_dealer(n as int, broadcasts@)),
        !(n > 0 && 1 <= my_idx <= n) ==> r matches Err(DkgOutputError::InvalidParameters),
        r matches Err(DkgOutputError::InvalidParameters) ==> !init_structure_ok(n as int, my_idx, broadcasts@),
        !init_structure_ok(n as int, my_idx, broadcasts@) ==> r matches Err(DkgOutputError::InvalidParameters),
        r matches Err(DkgOutputError::InvalidSignature { dealer_idx }) ==> init_structure_ok(n as int, my_idx, broadcasts@)
            && exists|i: int| #[trigger] first_bad_signature_at(n as int, *parties, broadcasts@, i) && broadcasts@[i].dealer_idx == dealer_idx,
        r matches Err(e) ==> e is InvalidParameters || e is InvalidSignature,
        r matches Err(e) ==> (e matches DkgOutputError::InvalidParameters || (e matches DkgOutputError::InvalidSignature { dealer_idx }
            && exists|i: int| 0 <= i < broadcasts@.len() && broadcasts@[i].dealer_idx == dealer_idx
                && !init_signature_ok(broadcasts@[i], parties.parties@[dealer_idx - 1].sig_pk))),
{
    match validate_decoded(n, my_idx, broadcasts) {
        Ok(()) => {},
        Err(e) => {
            return Err(e);
        },
    }
    let mut i: usize = 0;
    while i < broadcasts.len()
        invariant
            i <= broadcasts@.len(),
            parties.parties@.len() >= n,
            n > 0,
            1 <= my_idx <= n,
            forall|q: int| 0 <= q < broadcasts@.len() ==> 1 <= (#[trigger] broadcasts@[q]).dealer_idx <= n && broadcasts@[q].pedvss@.len() == n,
            forall|q: int| 0 <= q < i ==> broadcast_ok(n as int, *parties, #[trigger] broadcasts@[q]),
            init_structure_ok(n as int, my_idx, broadcasts@),
        decreases broadcasts@.len() - i,
    {
        let msg = &broadcasts[i];
        if !msg.verify(parties.sig_pk(msg.dealer_idx)) {
            proof {
                assert(first_bad_signature_at(n as int, *parties, broadcasts@, i as int));
            }
            return Err(DkgOutputError::InvalidSignature { dealer_idx: msg.dealer_idx });
        }
        i = i + 1;
    }
    Ok(())
}

/// [`dkg_output_key_generation`] with the structural checks of all
/// broadcasts made before any signature check. Same result when it succeeds.
pub fn dkg_output_key_generation_parallel<S: PolyProofScheme>(
    dkg_params: &DkgParams,
    proof_params: &S::Params,
    state: &PartyState,
    local: &DkgInitLocalState,
    broadcasts: &[DkgInitBroadcast<S::Proof>],
    parties: &Parties,
) -> (r: Result<DkgOutput, DkgOutputError>) where S::Proof: WireCodec
    requires
        parties.parties@.len() >= dkg_params.n,
    ensures
        r matches Ok(out) ==> broadcasts_accepted::<S>(*dkg_params, *proof_params, state.dealer_idx, broadcasts@, *parties)
            && output_matches(out, state.enc_sk@, state.dealer_idx, dkg_params.n as int, *local, broadcasts@),
        !(dkg_params.n > 0 && 1 <= state.dealer_idx <= dkg_params.n) ==> r matches Err(DkgOutputError::InvalidParameters),
        !init_structure_ok(dkg_params.n as int, state.dealer_idx, broadcasts@) ==> r matches Err(
            DkgOutputError::InvalidParameters,
        ),
        r matches Err(e) ==> output_error_blames::<S>(
            e,
            *dkg_params,
            *proof_params,
            state.enc_sk@,
            state.enc_pk,
            state.dealer_idx,
            broadcasts@,
            *parties,
        ),
        r matches Err(e) ==> output_error_in_order::<S>(
            e,
            *dkg_params,
            *proof_params,
            state.dealer_idx,
            broadcasts@,
            *parties,
            true,
        ),
{
    match validate_broadcasts_parallel(dkg_params.n, state.dealer_idx, broadcasts, parties) {
        Ok(()) => {},
        Err(e) => {
            return Err(e);
        },
    }
    match verify_poly_proofs::<S>(dkg_params, proof_params, broadcasts) {
        Ok(()) => {},
        Err(e) => {
            return Err(e);
        },
    }
    let (s_i, s_i_blind) = match decrypt_and_accumulate(state, broadcasts, (local.my_share, local.my_blinding)) {
        Ok(x) => x,
        Err(e) => {
            return Err(e);
        },
    };
    let (public_key, partial_verification_keys) = aggregate_public_outputs(dkg_params.n, broadcasts);
    Ok(DkgOutput {
        idx: state.dealer_idx,
        secret_share: s_i,
        blinding_share: s_i_blind,
        public_key,
        partial_verification_keys,
    })
}

/// The signed bytes of each broadcast.
pub open spec fn init_batch_messages<P: WireCodec>(bs: Seq<DkgInitBroadcast<P>>) -> Seq<Seq<u8>> {
    bs.map_values(|m: DkgInitBroadcast<P>| init_signed_bytes(m))
}

/// The signature of each broadcast.
pub open spec fn init_batch_signatures<P>(bs: Seq<DkgInitBroadcast<P>>) -> Seq<Signature> {
    bs.map_values(|m: DkgInitBroadcast<P>| m.signature)
}

/// The verifying key of each broadcast's dealer.
pub open spec fn init_batch_keys<P>(bs: Seq<DkgInitBroadcast<P>>, parties: Parties) -> Seq<VerifyingKey> {
    bs.map_values(|m: DkgInitBroadcast<P>| parties.parties@[m.dealer_idx - 1].sig_pk)
}

/// Batch-verifies all broadcast signatures at once. It does not say which one
/// failed, so identifying a culprit needs the per-message check.
pub fn batch_verify_signatures<P: WireCodec>(broadcasts: &[DkgInitBroadcast<P>], parties: &Parties) -> (r: bool)
    requires
        forall|i: int| 0 <= i < broadcasts@.len() ==> 1 <= (#[trigger] broadcasts@[i]).dealer_idx <= parties.parties@.len(),
    ensures
        r == crate::sig::ed25519_batch_accepts(
            init_batch_messages(broadcasts@),
            crate::sig::signature_bytes(init_batch_signatures(broadcasts@)),
            crate::sig::key_bytes(init_batch_keys(broadcasts@, *parties)),
        ),
{
    let mut messages: Vec<Vec<u8>> = Vec::new();
    let mut signatures: Vec<Signature> = Vec::new();
    let mut keys: Vec<VerifyingKey> = Vec::new();
    let mut i: usize = 0;
    while i < broadcasts.len()
        invariant
            i <= broadcasts@.len(),
            forall|q: int| 0 <= q < broadcasts@.len() ==> 1 <= (#[trigger] broadcasts@[q]).dealer_idx <= parties.parties@.len(),
            messages@.len() == i,
            signatures@.len() == i,
            keys@.len() == i,
            forall|q: int| 0 <= q < i ==> (#[trigger] messages@[q])@ == init_signed_bytes(broadcasts@[q]),
            forall|q: int| 0 <= q < i ==> (#[trigger] signatures@[q]) == broadcasts@[q].signature,
            forall|q: int| 0 <= q < i ==> (#[trigger] keys@[q]) == parties.parties@[broadcasts@[q].dealer_idx - 1].sig_pk,
        decreases broadcasts@.len() - i,
    {
        let m = &broadcasts[i];
        messages.push(m.signing_bytes());
        signatures.push(m.signature);
        keys.push(*parties.sig_pk(m.dealer_idx));
        i = i + 1;
    }
    assert(messages@.map_values(|v: Vec<u8>| v@) =~= init_batch_messages(broadcasts@));
    assert(signatures@ =~= init_batch_signatures(broadcasts@));
    assert(keys@ =~= init_batch_keys(broadcasts@, *parties));
    crate::sig::verify_batch(messages.as_slice(), signatures.as_slice(), keys.as_slice())
}

/// Builds the signed complaint from a bad-opening error; `None` for any
/// other error, which is not a share-opening dispute.
/// `rep` is the complaint that party `state` makes of a bad-opening error: it
/// names the party and the accused, carries the opened pair, the shared
/// value and its proof, and is signed with the party's key.
pub open spec fn report_built_from(rep: AbortReport, state: PartyState, err: DkgOutputError) -> bool {
    err matches DkgOutputError::InvalidDecryptionOpening { dealer_idx, s_ji, r_ji, pi_i, .. } && {
        &&& rep.reporter_idx == state.dealer_idx
        &&& rep.accused_idx == dealer_idx
        &&& rep.s_ji == s_ji
        &&& rep.r_ji == r_ji
        &&& rep.shared == pi_i.0
        &&& rep.proof == pi_i.1
        &&& rep.signature.bytes@ == ed25519_signature(state.sig_sk.bytes@, crate::abort::report_signed_bytes(rep))
        &&& signed_by(state.sig_sk.bytes@, crate::abort::report_signed_bytes(rep), rep.signature.bytes@)
    }
}

pub fn build_abort_report(state: &PartyState, err: &DkgOutputError) -> (r: Option<AbortReport>)
    ensures
        r is Some <==> err is InvalidDecryptionOpening,
        r matches Some(rep) ==> report_built_from(rep, *state, *err),
{
    match err {
        DkgOutputError::InvalidDecryptionOpening { dealer_idx, s_ji, r_ji, pi_i, .. } => {
            let (shared, proof) = &**pi_i;
            Some(AbortReport::new(state.dealer_idx, *dealer_idx, *s_ji, *r_ji, *shared, *proof, &state.sig_sk))
        },
        _ => None,
    }
}

/// The verdict on a complaint against an accused broadcast: invalid when it
/// names another dealer, a reporter out of range, or the dealer itself;
/// otherwise the verdict on the reporter's share and commitment.
pub open spec fn abort_verdict_of<P>(parties: Parties, accused: DkgInitBroadcast<P>, report: AbortReport) -> AbortVerdict {
    if accused.dealer_idx != report.accused_idx || report.reporter_idx == 0 || report.reporter_idx
        > accused.pedvss@.len() || report.reporter_idx == accused.dealer_idx {
        AbortVerdict::InvalidReport
    } else {
        crate::abort::report_verdict(
            parties,
            accused.encrypted_shares.u,
            reporter_share_of(accused.encrypted_shares, report.reporter_idx),
            report,
            accused.pedvss@[report.reporter_idx - 1]@,
        )
    }
}

/// The share the accused's batch holds for the reporter, as a value.
pub open spec fn reporter_share_of(b: BatchEncryptedShares, idx: usize) -> Option<EncryptedShare> {
    if b.shares@.contains_key(idx) {
        Some(b.shares@[idx])
    } else {
        None
    }
}

/// Checks a complaint against the accused dealer's broadcast.
pub fn verify_abort_report<P>(parties: &Parties, accused: &DkgInitBroadcast<P>, report: &AbortReport) -> (r: AbortVerdict)
    requires
        report.reporter_idx <= parties.parties@.len() || accused.dealer_idx != report.accused_idx
            || report.reporter_idx == 0 || report.reporter_idx > accused.pedvss@.len()
            || report.reporter_idx == accused.dealer_idx,
    ensures
        r == abort_verdict_of(*parties, *accused, *report),
{
    if accused.dealer_idx != report.accused_idx || report.reporter_idx == 0
        || report.reporter_idx > accused.pedvss.len() || report.reporter_idx == accused.dealer_idx {
        return AbortVerdict::InvalidReport;
    }
    let reporter_share = crate::encryption::elgamal::share_for(&accused.encrypted_shares, report.reporter_idx);
    verify_report_core(
        parties,
        &accused.encrypted_shares.u,
        reporter_share,
        report,
        &accused.pedvss[report.reporter_idx - 1],
    )
}

} // verus!
