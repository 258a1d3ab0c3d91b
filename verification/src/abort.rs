//! Identifiable-abort complaints, shared by both protocols. A receiver whose
//! share does not open the dealer's commitment publishes a signed report; the
//! decryption proof lets every other party re-derive the same verdict.

use crate::arith::modl;
use crate::encryption::elgamal::{key1, key2};
use crate::encryption::open_share_with_shared;
use crate::encryption::proofs::{decryption_valid, verify_decryption, DecryptionProof};
use crate::encryption::EncryptedShare;
use crate::group::Point;
use crate::party::Parties;
use crate::pedersen::{com_dlog, PedersenCommitment};
use crate::scalar::Scalar;
use crate::sig::{ed25519_verify_strict, Signature, SigningKey, VerifyingKey};
use crate::wire::WireCodec;
use vstd::prelude::*;

verus! {

/// A signed complaint that a dealer's share does not open its commitment.
/// `shared` is the reporter's Diffie-Hellman value, and `proof` binds it to
/// the reporter's encryption key so anyone can recompute the opening.
#[derive(Clone)]
pub struct AbortReport {
    pub reporter_idx: usize,
    pub accused_idx: usize,
    pub s_ji: Scalar,
    pub r_ji: Scalar,
    pub shared: Point,
    pub proof: DecryptionProof,
    pub signature: Signature,
}

/// Who is to blame.
#[derive(Clone, Copy, Debug, PartialEq, Eq, Structural)]
pub enum AbortVerdict {
    DealerGuilty { dealer_idx: usize, reporter_idx: usize },
    ReporterGuilty { reporter_idx: usize },
    InvalidReport,
}

/// The encoding of a report's fields, its signature left out.
pub open spec fn report_fields_encoding(r: AbortReport) -> Seq<u8> {
    r.reporter_idx.encoding() + r.accused_idx.encoding() + r.s_ji.encoding() + r.r_ji.encoding()
        + r.shared.encoding() + r.proof.encoding()
}

/// The bytes a report's signature covers: the report with an all-zero
/// signature.
pub open spec fn report_signed_bytes(r: AbortReport) -> Seq<u8> {
    report_fields_encoding(r) + Seq::new(64, |i: int| 0u8)
}

impl AbortReport {
    /// A report signed with the reporter's key.
    pub fn new(
        reporter_idx: usize,
        accused_idx: usize,
        s_ji: Scalar,
        r_ji: Scalar,
        shared: Point,
        proof: DecryptionProof,
        signing_key: &SigningKey,
    ) -> (r: AbortReport)
        ensures
            r.reporter_idx == reporter_idx,
            r.accused_idx == accused_idx,
            r.s_ji == s_ji,
            r.r_ji == r_ji,
            r.shared == shared,
            r.proof == proof,
            r.signature.bytes@ == crate::sig::ed25519_signature(
                signing_key.bytes@,
                report_signed_bytes(r),
            ),
            crate::sig::signed_by(signing_key.bytes@, report_signed_bytes(r), r.signature.bytes@),
    {
        let mut report = AbortReport {
            reporter_idx,
            accused_idx,
            s_ji,
            r_ji,
            shared,
            proof,
            signature: Signature::placeholder(),
        };
        report.sign(signing_key);
        report
    }

    /// The bytes the signature covers.
    fn signing_bytes(&self) -> (r: Vec<u8>)
        ensures
            r@ == report_signed_bytes(*self),
    {
        let mut out: Vec<u8> = Vec::new();
        self.reporter_idx.encode(&mut out);
        self.accused_idx.encode(&mut out);
        self.s_ji.encode(&mut out);
        self.r_ji.encode(&mut out);
        self.shared.encode(&mut out);
        self.proof.encode(&mut out);
        let mut i: usize = 0;
        let ghost pre = out@;
        while i < 64
            invariant
                i <= 64,
                out@ == pre + Seq::new(i as nat, |q: int| 0u8),
            decreases 64 - i,
        {
            out.push(0u8);
            i = i + 1;
            assert(out@ =~= pre + Seq::new(i as nat, |q: int| 0u8));
        }
        assert(out@ =~= report_signed_bytes(*self));
        out
    }

    /// Signs the report with `sk`.
    pub fn sign(&mut self, sk: &SigningKey)
        ensures
            final(self).reporter_idx == old(self).reporter_idx,
            final(self).accused_idx == old(self).accused_idx,
            final(self).s_ji == old(self).s_ji,
            final(self).r_ji == old(self).r_ji,
            final(self).shared == old(self).shared,
            final(self).proof == old(self).proof,
            final(self).signature.bytes@ == crate::sig::ed25519_signature(
                sk.bytes@,
                report_signed_bytes(*old(self)),
            ),
            crate::sig::signed_by(sk.bytes@, report_signed_bytes(*old(self)), final(self).signature.bytes@),
    {
        let bytes = self.signing_bytes();
        self.signature = sk.sign(bytes.as_slice());
    }

    /// Whether the signature verifies under `pk`.
    pub fn verify_signature(&self, pk: &VerifyingKey) -> (r: bool)
        ensures
            r == ed25519_verify_strict(pk.bytes@, report_signed_bytes(*self), self.signature.bytes@),
    {
        let bytes = self.signing_bytes();
        pk.verify_strict(bytes.as_slice(), &self.signature)
    }

    /// The length of the report's encoding.
    pub fn serialized_len(&self) -> (r: usize)
        ensures
            r == report_fields_encoding(*self).len() + 64,
    {
        let bytes = self.signing_bytes();
        bytes.len()
    }
}

/// The verdict on a report: an unauthenticated report is invalid; a report
/// whose decryption proof fails blames the reporter; otherwise the share is
/// reopened from `shared`, and the dealer is blamed unless it opens the
/// commitment `c`, or unless no share was sent at all.
pub open spec fn report_verdict(
    parties: Parties,
    u: Point,
    share: Option<EncryptedShare>,
    report: AbortReport,
    c: int,
) -> AbortVerdict {
    let p = parties.parties@[report.reporter_idx - 1];
    if !ed25519_verify_strict(p.sig_pk.bytes@, report_signed_bytes(report), report.signature.bytes@) {
        AbortVerdict::InvalidReport
    } else if !decryption_valid(p.enc_pk, u, report.shared, report.proof) {
        AbortVerdict::ReporterGuilty { reporter_idx: report.reporter_idx }
    } else {
        match share {
            None => AbortVerdict::DealerGuilty {
                dealer_idx: report.accused_idx,
                reporter_idx: report.reporter_idx,
            },
            Some(s) => {
                let a = modl(s.v1@ - key1(report.shared@));
                let b = modl(s.v2@ - key2(report.shared@));
                if c == com_dlog(a, b) {
                    AbortVerdict::ReporterGuilty { reporter_idx: report.reporter_idx }
                } else {
                    AbortVerdict::DealerGuilty {
                        dealer_idx: report.accused_idx,
                        reporter_idx: report.reporter_idx,
                    }
                }
            },
        }
    }
}

/// The check every party runs on a published complaint. `commitment` is the
/// accused's commitment to the reporter's share; the opening is recomputed
/// from `shared`, as the reporter cannot forge it, so its self-reported
/// opening is not trusted.
pub fn verify_report_core(
    parties: &Parties,
    u: &Point,
    reporter_share: Option<&EncryptedShare>,
    report: &AbortReport,
    commitment: &PedersenCommitment,
) -> (r: AbortVerdict)
    requires
        1 <= report.reporter_idx <= parties.parties@.len(),
    ensures
        r == report_verdict(
            *parties,
            *u,
            match reporter_share {
                Some(s) => Some(*s),
                None => None,
            },
            *report,
            commitment@,
        ),
{
    if !report.verify_signature(parties.sig_pk(report.reporter_idx)) {
        return AbortVerdict::InvalidReport;
    }
    if !verify_decryption(parties.enc_pk(report.reporter_idx), u, &report.shared, &report.proof) {
        return AbortVerdict::ReporterGuilty { reporter_idx: report.reporter_idx };
    }
    let share = match reporter_share {
        Some(share) => share,
        None => {
            return AbortVerdict::DealerGuilty {
                dealer_idx: report.accused_idx,
                reporter_idx: report.reporter_idx,
            };
        },
    };
    let (s_ji, r_ji) = open_share_with_shared(&report.shared, share);
    if commitment.matches_opening(s_ji, r_ji) {
        AbortVerdict::ReporterGuilty { reporter_idx: report.reporter_idx }
    } else {
        AbortVerdict::DealerGuilty {
            dealer_idx: report.accused_idx,
            reporter_idx: report.reporter_idx,
        }
    }
}

} // verus!
