//! Ed25519 signatures by `ed25519_dalek`, with keys and signatures held as
//! their byte encodings.

use ed25519_dalek::Signer;
use vstd::prelude::*;

verus! {

/// The verifying key that `ed25519_dalek` derives from a 32-byte secret key.
pub uninterp spec fn ed25519_public_key(sk: Seq<u8>) -> Seq<u8>;

/// The signature that `SigningKey::sign` makes over a message. Ed25519
/// signing is deterministic.
pub uninterp spec fn ed25519_signature(sk: Seq<u8>, msg: Seq<u8>) -> Seq<u8>;

/// Whether `VerifyingKey::verify_strict` accepts a signature over a message
/// under a key given by its encoding (`false` when the encoding is no key).
pub uninterp spec fn ed25519_verify_strict(pk: Seq<u8>, msg: Seq<u8>, sig: Seq<u8>) -> bool;

/// The signature's nonce commitment `R` is the neutral element: its first
/// 32 bytes encode the identity, which `verify_strict` refuses as small order.
pub open spec fn nonce_is_neutral(sig: Seq<u8>) -> bool {
    &&& sig.len() >= 32
    &&& sig[0] == 1u8
    &&& forall|i: int| 1 <= i < 32 ==> sig[i] == 0u8
}

/// `sig` is a signature over `msg` that verifies under the key of `sk`,
/// unless its nonce commitment is neutral.
pub open spec fn signed_by(sk: Seq<u8>, msg: Seq<u8>, sig: Seq<u8>) -> bool {
    !nonce_is_neutral(sig) ==> ed25519_verify_strict(ed25519_public_key(sk), msg, sig)
}

/// Whether `ed25519_dalek::verify_batch` accepts signatures over messages
/// under keys, each given by its encoding (`false` when an encoding is no
/// key). Its weights come from a transcript of the inputs alone, so the
/// answer is a function of them.
pub uninterp spec fn ed25519_batch_accepts(msgs: Seq<Seq<u8>>, sigs: Seq<Seq<u8>>, keys: Seq<Seq<u8>>) -> bool;

/// `SigningKey::generate` over the operating system's generator: 32 random
/// bytes.
#[verifier::external_body]
fn ed25519_generate() -> (r: [u8; 32]) {
    ed25519_dalek::SigningKey::generate(&mut rand::rngs::OsRng).to_bytes()
}

/// `SigningKey::verifying_key`, encoded.
#[verifier::external_body]
fn ed25519_public(sk: &[u8; 32]) -> (r: [u8; 32])
    ensures
        r@ == ed25519_public_key(sk@),
{
    ed25519_dalek::SigningKey::from_bytes(sk).verifying_key().to_bytes()
}

/// `SigningKey::sign`, encoded. A signature made with a key verifies under
/// that key's verifying key (`verify_strict`), as the crate's own tests show;
/// the one exception is a nonce commitment `R = [r]B` that is the identity
/// (`r` a multiple of the group order), which `verify_strict` refuses as small
/// order. The verifying key of a clamped secret is never of small order.
#[verifier::external_body]
fn ed25519_sign(sk: &[u8; 32], msg: &[u8]) -> (r: [u8; 64])
    ensures
        r@ == ed25519_signature(sk@, msg@),
        signed_by(sk@, msg@, r@),
{
    ed25519_dalek::SigningKey::from_bytes(sk).sign(msg).to_bytes()
}

/// `VerifyingKey::from_bytes` followed by `verify_strict`.
#[verifier::external_body]
fn ed25519_verify(pk: &[u8; 32], msg: &[u8], sig: &[u8; 64]) -> (r: bool)
    ensures
        r == ed25519_verify_strict(pk@, msg@, sig@),
{
    let s = ed25519_dalek::Signature::from_bytes(sig);
    ed25519_dalek::VerifyingKey::from_bytes(pk).map_or(false, |k| k.verify_strict(msg, &s).is_ok())
}

/// `ed25519_dalek::verify_batch`: its answer is named; the source refuses
/// lists of different lengths. Keys that encode no key make it `false`.
#[verifier::external_body]
fn ed25519_verify_batch(msgs: &[Vec<u8>], sigs: &[[u8; 64]], keys: &[[u8; 32]]) -> (r: bool)
    ensures
        r == ed25519_batch_accepts(
            msgs@.map_values(|v: Vec<u8>| v@),
            sigs@.map_values(|b: [u8; 64]| b@),
            keys@.map_values(|b: [u8; 32]| b@),
        ),
        (msgs@.len() != sigs@.len() || sigs@.len() != keys@.len()) ==> !r,
{
    let m: Vec<&[u8]> = msgs.iter().map(|v| v.as_slice()).collect();
    let s: Vec<_> = sigs.iter().map(ed25519_dalek::Signature::from_bytes).collect();
    let k: Option<Vec<_>> = keys.iter().map(|b| ed25519_dalek::VerifyingKey::from_bytes(b).ok()).collect();
    k.map_or(false, |k| ed25519_dalek::verify_batch(&m, &s, &k).is_ok())
}

/// A secret signing key.
#[derive(Clone, Copy, Debug)]
pub struct SigningKey {
    pub bytes: [u8; 32],
}

/// A public verifying key.
#[derive(Clone, Copy, Debug, PartialEq, Eq)]
pub struct VerifyingKey {
    pub bytes: [u8; 32],
}

/// A signature.
#[derive(Clone, Copy, Debug, PartialEq, Eq)]
pub struct Signature {
    pub bytes: [u8; 64],
}

impl SigningKey {
    /// A fresh key from the operating system's generator.
    pub fn generate() -> (r: SigningKey) {
        SigningKey { bytes: ed25519_generate() }
    }

    /// The matching verifying key.
    pub fn verifying_key(&self) -> (r: VerifyingKey)
        ensures
            r.bytes@ == ed25519_public_key(self.bytes@),
    {
        VerifyingKey { bytes: ed25519_public(&self.bytes) }
    }

    /// The signature over `msg`.
    pub fn sign(&self, msg: &[u8]) -> (r: Signature)
        ensures
            r.bytes@ == ed25519_signature(self.bytes@, msg@),
            signed_by(self.bytes@, msg@, r.bytes@),
    {
        Signature { bytes: ed25519_sign(&self.bytes, msg) }
    }
}

impl VerifyingKey {
    /// Strict verification of `sig` over `msg`.
    pub fn verify_strict(&self, msg: &[u8], sig: &Signature) -> (r: bool)
        ensures
            r == ed25519_verify_strict(self.bytes@, msg@, sig.bytes@),
    {
        ed25519_verify(&self.bytes, msg, &sig.bytes)
    }
}

impl Signature {
    /// The all-zero placeholder that a message carries before it is signed.
    pub fn placeholder() -> (r: Signature)
        ensures
            forall|i: int| 0 <= i < 64 ==> r.bytes@[i] == 0,
    {
        Signature { bytes: [0u8; 64] }
    }
}

/// The encodings of signatures.
pub open spec fn signature_bytes(sigs: Seq<Signature>) -> Seq<Seq<u8>> {
    sigs.map_values(|s: Signature| s.bytes@)
}

/// The encodings of verifying keys.
pub open spec fn key_bytes(keys: Seq<VerifyingKey>) -> Seq<Seq<u8>> {
    keys.map_values(|k: VerifyingKey| k.bytes@)
}

/// Batch verification of signatures over messages under keys, all at once;
/// lists of different lengths are refused.
pub fn verify_batch(msgs: &[Vec<u8>], sigs: &[Signature], keys: &[VerifyingKey]) -> (r: bool)
    ensures
        r == ed25519_batch_accepts(msgs@.map_values(|v: Vec<u8>| v@), signature_bytes(sigs@), key_bytes(keys@)),
        (msgs@.len() != sigs@.len() || sigs@.len() != keys@.len()) ==> !r,
{
    let mut sb: Vec<[u8; 64]> = Vec::new();
    let mut i: usize = 0;
    while i < sigs.len()
        invariant
            i <= sigs@.len(),
            sb@.len() == i,
            forall|q: int| 0 <= q < i ==> (#[trigger] sb@[q]) == sigs@[q].bytes,
        decreases sigs@.len() - i,
    {
        sb.push(sigs[i].bytes);
        i = i + 1;
    }
    let mut kb: Vec<[u8; 32]> = Vec::new();
    let mut i: usize = 0;
    while i < keys.len()
        invariant
            i <= keys@.len(),
            kb@.len() == i,
            forall|q: int| 0 <= q < i ==> (#[trigger] kb@[q]) == keys@[q].bytes,
        decreases keys@.len() - i,
    {
        kb.push(keys[i].bytes);
        i = i + 1;
    }
    assert(sb@.map_values(|b: [u8; 64]| b@) =~= signature_bytes(sigs@));
    assert(kb@.map_values(|b: [u8; 32]| b@) =~= key_bytes(keys@));
    ed25519_verify_batch(msgs, sb.as_slice(), kb.as_slice())
}

} // verus!
