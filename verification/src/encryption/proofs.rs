//! Chaum-Pedersen proof that a Diffie-Hellman value `shared = u^sk` was formed
//! with the key behind `pk = g^sk`.

use crate::arith::{group_order, le_value, lemma_modl_add, lemma_modl_bound, lemma_modl_mul, modl};
use crate::group::{compressed_multiple, Point};
use crate::scalar::Scalar;
use crate::transcript::{
    append_point, challenge_scalar, merlin_challenge, new_transcript, op_append, op_init,
    transcript_contents,
};
use vstd::prelude::*;
use vstd::string::StringSliceAdditionalSpecFns;

verus! {

/// A proof that `log_g pk = log_u shared`.
#[derive(Clone, Copy)]
pub struct DecryptionProof {
    pub a1: Point,
    pub a2: Point,
    pub z: Scalar,
}

/// The transcript of the proof's challenge.
pub open spec fn decryption_transcript(
    pk: Seq<u8>,
    u: Seq<u8>,
    shared: Seq<u8>,
    a1: Seq<u8>,
    a2: Seq<u8>,
) -> Seq<(u8, Seq<u8>, Seq<u8>)> {
    seq![
        op_init("hashed-elgamal-decryption-proof".spec_bytes()),
        op_append("pk".spec_bytes(), pk),
        op_append("u".spec_bytes(), u),
        op_append("shared".spec_bytes(), shared),
        op_append("a1".spec_bytes(), a1),
        op_append("a2".spec_bytes(), a2),
    ]
}

/// The challenge of the proof.
pub open spec fn decryption_c(pk: Point, u: Point, shared: Point, a1: Point, a2: Point) -> int {
    modl(
        le_value(
            merlin_challenge(
                decryption_transcript(pk.enc(), u.enc(), shared.enc(), a1.enc(), a2.enc()),
                "c".spec_bytes(),
            ),
        ),
    )
}

/// The two verification equations `g^z = a1 pk^c` and `u^z = a2 shared^c`.
pub open spec fn decryption_valid(pk: Point, u: Point, shared: Point, proof: DecryptionProof) -> bool {
    let c = decryption_c(pk, u, shared, proof.a1, proof.a2);
    &&& modl(proof.z@) == modl(proof.a1@ + pk@ * c)
    &&& modl(u@ * proof.z@) == modl(proof.a2@ + shared@ * c)
}

fn decryption_challenge(pk: &Point, u: &Point, shared: &Point, a1: &Point, a2: &Point) -> (r:
    Scalar)
    ensures
        r@ == decryption_c(*pk, *u, *shared, *a1, *a2),
{
    let mut t = new_transcript("hashed-elgamal-decryption-proof");
    append_point(&mut t, "pk", pk);
    append_point(&mut t, "u", u);
    append_point(&mut t, "shared", shared);
    append_point(&mut t, "a1", a1);
    append_point(&mut t, "a2", a2);
    let ghost h = transcript_contents(t);
    let c = challenge_scalar(&mut t, "c");
    assert(h =~= decryption_transcript(pk.enc(), u.enc(), shared.enc(), a1.enc(), a2.enc()));
    c
}

/// Computes `shared = u^sk` and proves that it was formed with `sk`.
pub fn prove_decryption(sk: &Scalar, pk: &Point, u: &Point) -> (r: (Point, DecryptionProof))
    ensures
        r.0@ == modl(u@ * sk@),
        pk@ == modl(sk@) ==> decryption_valid(*pk, *u, r.0, r.1),
{
    let shared = u.mul(sk);
    let r = Scalar::random();
    let a1 = Point::basepoint_mul(&r);
    let a2 = u.mul(&r);
    let c = decryption_challenge(pk, u, &shared, &a1, &a2);
    let cs = c.mul(sk);
    let z = r.add(&cs);
    let proof = DecryptionProof { a1, a2, z };
    proof {
        if pk@ == modl(sk@) {
            lemma_decryption_complete(sk@, u@, r@, c@, pk@, shared@, a1@, a2@, z@);
        }
    }
    (shared, proof)
}

proof fn lemma_decryption_complete(
    sk: int,
    u: int,
    r: int,
    c: int,
    pk: int,
    shared: int,
    a1: int,
    a2: int,
    z: int,
)
    requires
        0 <= r < group_order(),
        pk == modl(sk),
        shared == modl(u * sk),
        a1 == modl(r),
        a2 == modl(u * r),
        z == modl(r + modl(c * sk)),
    ensures
        modl(z) == modl(a1 + pk * c),
        modl(u * z) == modl(a2 + shared * c),
{
    lemma_modl_bound(r);
    lemma_modl_bound(r + modl(c * sk));
    lemma_modl_add(r, c * sk);
    lemma_modl_mul(sk, c);
    lemma_modl_add(r, pk * c);
    assert(sk * c == c * sk) by (nonlinear_arith);
    // second equation
    lemma_modl_mul(u, r + c * sk);
    lemma_modl_mul(u * sk, c);
    lemma_modl_add(u * r, shared * c);
    lemma_modl_add(u * r, u * sk * c);
    lemma_modl_add(a2, u * sk * c);
    lemma_modl_mul(u * sk, c);
    assert(u * (r + c * sk) == u * r + u * sk * c) by (nonlinear_arith);
    lemma_modl_add(modl(u * r), modl(u * sk * c));
    lemma_modl_add(u * r, modl(u * sk * c));
}

/// Checks a proof that `shared = u^sk` for the `sk` behind `pk`.
pub fn verify_decryption(pk: &Point, u: &Point, shared: &Point, proof: &DecryptionProof) -> (r:
    bool)
    ensures
        r == decryption_valid(*pk, *u, *shared, *proof),
{
    let c = decryption_challenge(pk, u, shared, &proof.a1, &proof.a2);
    let lhs1 = Point::basepoint_mul(&proof.z);
    let rhs1 = proof.a1.add(&pk.mul(&c));
    let lhs2 = u.mul(&proof.z);
    let rhs2 = proof.a2.add(&shared.mul(&c));
    proof {
        lemma_modl_add(proof.a1@, pk@ * c@);
        lemma_modl_add(proof.a2@, shared@ * c@);
    }
    lhs1.equals(&rhs1) && lhs2.equals(&rhs2)
}


/// The response is bound by the commitments: two accepted proofs of one
/// decryption (same `pk`, `u` and shared value) with the same `a1` and `a2`
/// have the same response `z`. So changing the response of an accepted proof
/// always makes it refused.
pub proof fn lemma_decryption_response_unique(
    pk: Point,
    u: Point,
    shared: Point,
    p1: DecryptionProof,
    p2: DecryptionProof,
)
    requires
        decryption_valid(pk, u, shared, p1),
        decryption_valid(pk, u, shared, p2),
        p1.a1 == p2.a1,
        p1.a2 == p2.a2,
    ensures
        modl(p1.z@) == modl(p2.z@),
{
}

/// Soundness against a wrong key: a proof whose first messages and response
/// were made from a secret `x` and nonce `k` (`a1 = g^k`, `a2 = u^k`,
/// `z = k + c x`) is accepted only if `c x = c sk` and `c (x u) = c shared`,
/// where `pk = g^sk`: unless the challenge `c` is zero, only the key behind
/// `pk` passes, and only with the Diffie-Hellman value `u^sk`.
pub proof fn lemma_decryption_binds_key(
    pk: Point,
    u: Point,
    shared: Point,
    proof: DecryptionProof,
    x: int,
    k: int,
)
    requires
        decryption_valid(pk, u, shared, proof),
        proof.a1@ == modl(k),
        proof.a2@ == modl(u@ * k),
        modl(proof.z@) == modl(k + decryption_c(pk, u, shared, proof.a1, proof.a2) * x),
    ensures
        modl(decryption_c(pk, u, shared, proof.a1, proof.a2) * x) == modl(
            decryption_c(pk, u, shared, proof.a1, proof.a2) * pk@,
        ),
        modl(decryption_c(pk, u, shared, proof.a1, proof.a2) * (u@ * x)) == modl(
            decryption_c(pk, u, shared, proof.a1, proof.a2) * shared@,
        ),
{
    let c = decryption_c(pk, u, shared, proof.a1, proof.a2);
    let z = proof.z@;
    // the first equation: k + c x = k + c pk
    lemma_modl_add(k, pk@ * c);
    assert(modl(k + c * x) == modl(k + pk@ * c));
    assert((k + c * x) - (k + pk@ * c) == c * x - c * pk@) by (nonlinear_arith);
    crate::arith::lemma_modl_diff_zero(k + c * x, k + pk@ * c);
    crate::arith::lemma_modl_diff_zero(c * x, c * pk@);
    // the second equation: u (k + c x) = u k + c shared
    crate::arith::lemma_modl_mul_cong(u@, z, u@, k + c * x);
    lemma_modl_add(u@ * k, shared@ * c);
    assert(modl(u@ * (k + c * x)) == modl(u@ * k + shared@ * c));
    assert(u@ * (k + c * x) - (u@ * k + shared@ * c) == c * (u@ * x) - c * shared@) by (nonlinear_arith);
    crate::arith::lemma_modl_diff_zero(u@ * (k + c * x), u@ * k + shared@ * c);
    crate::arith::lemma_modl_diff_zero(c * (u@ * x), c * shared@);
}

} // verus!
