//! Hashed ElGamal over Ristretto255 carrying two scalars per receiver, with a
//! Schnorr proof of knowledge of the ephemeral key, and the batched check of
//! those proofs.

use crate::arith::{
    group_order, le_value, lemma_modl_add, lemma_modl_add_cong, lemma_modl_bound, lemma_modl_idem, lemma_modl_mul,
    lemma_modl_mul_cong, lemma_modl_neg_cong, lemma_modl_sub, modl,
};
use crate::bytes::{push_bytes, push_u64, sha512, sha512_spec, str_bytes, u64_le};
use crate::group::{compressed_multiple, dlogs, lin_comb, multiscalar_mul, svals, Point};
use crate::scalar::Scalar;
use std::collections::BTreeMap;
use vstd::prelude::*;
use vstd::string::StringSliceAdditionalSpecFns;

verus! {

broadcast use vstd::laws_cmp::group_laws_cmp;

/// A Schnorr proof of knowledge of `log_g u`.
#[derive(Clone, Copy)]
pub struct SchnorrDLogProof {
    pub r_pt: Point,
    pub z: Scalar,
}

/// A ciphertext of two scalars under one receiver key.
#[derive(Clone, Copy)]
pub struct HashedElgamalCiphertext2 {
    pub u: Point,
    pub v1: Scalar,
    pub v2: Scalar,
    pub pok: SchnorrDLogProof,
}

/// The pair of masked scalars sent to one receiver.
#[derive(Clone, Copy)]
pub struct EncryptedShare {
    pub v1: Scalar,
    pub v2: Scalar,
}

/// Masked share pairs for many receivers under one ephemeral key `u = g^alpha`,
/// keyed by the receiver's index.
#[derive(Clone)]
pub struct BatchEncryptedShares {
    pub u: Point,
    pub pok: SchnorrDLogProof,
    pub shares: BTreeMap<usize, EncryptedShare>,
}

/// `H(tag || bytes || idx)` reduced into a scalar: the key stream of the
/// encryption.
pub open spec fn scalar_from_hash_spec(bytes: Seq<u8>, idx: u64) -> int {
    modl(
        le_value(
            sha512_spec("hashed-elgamal-2scalar-v1".spec_bytes() + bytes + u64_le(idx)),
        ),
    )
}

/// The first key derived from a Diffie-Hellman value `[k]B`.
pub open spec fn key1(k: int) -> int {
    scalar_from_hash_spec(compressed_multiple(k), 1)
}

/// The second key derived from a Diffie-Hellman value `[k]B`.
pub open spec fn key2(k: int) -> int {
    scalar_from_hash_spec(compressed_multiple(k), 2)
}

/// The Fiat-Shamir challenge of the proof of knowledge of `log u`.
pub open spec fn schnorr_c(u: Seq<u8>, r: Seq<u8>) -> int {
    modl(le_value(sha512_spec("schnorr-dlog-pok-u-v1".spec_bytes() + u + r)))
}

/// An honestly made proof of knowledge for `u` with witness `alpha`.
pub open spec fn is_honest_pok(u: Point, alpha: int, pok: SchnorrDLogProof) -> bool {
    pok.r_pt@ == modl(pok.z@ - schnorr_c(u.enc(), pok.r_pt.enc()) * alpha)
}

fn scalar_from_hash(compressed: &[u8], idx: u64) -> (r: Scalar)
    ensures
        r@ == scalar_from_hash_spec(compressed@, idx),
{
    let mut m = str_bytes("hashed-elgamal-2scalar-v1");
    push_bytes(&mut m, compressed);
    push_u64(&mut m, idx);
    let d = sha512(m.as_slice());
    Scalar::from_bytes_mod_order_wide(&d)
}

fn hash_to_two_scalars(shared: &Point) -> (r: (Scalar, Scalar))
    ensures
        r.0@ == key1(shared@),
        r.1@ == key2(shared@),
{
    let b = shared.to_bytes();
    (scalar_from_hash(&b, 1), scalar_from_hash(&b, 2))
}

fn schnorr_challenge(u: &Point, r_pt: &Point) -> (r: Scalar)
    ensures
        r@ == schnorr_c(u.enc(), r_pt.enc()),
{
    let mut m = str_bytes("schnorr-dlog-pok-u-v1");
    let ub = u.to_bytes();
    let rb = r_pt.to_bytes();
    push_bytes(&mut m, &ub);
    push_bytes(&mut m, &rb);
    let d = sha512(m.as_slice());
    Scalar::from_bytes_mod_order_wide(&d)
}

fn prove_dlog(u: &Point, alpha: &Scalar) -> (p: SchnorrDLogProof)
    ensures
        is_honest_pok(*u, alpha@, p),
{
    let r = Scalar::random();
    let r_pt = Point::basepoint_mul(&r);
    let c = schnorr_challenge(u, &r_pt);
    let ca = c.mul(alpha);
    let z = r.add(&ca);
    proof {
        lemma_modl_bound(r@);
        lemma_modl_sub(r@ + c@ * alpha@, c@ * alpha@);
        lemma_modl_add(r@, c@ * alpha@);
        lemma_modl_sub(z@, c@ * alpha@);
        assert(z@ == modl(r@ + c@ * alpha@));
    }
    SchnorrDLogProof { r_pt, z }
}

/// The 64-byte seed of the batched check: a hash over all pairs.
#[verifier::opaque]
pub open spec fn seed_body(pairs: Seq<(Point, SchnorrDLogProof)>) -> Seq<u8>
    decreases pairs.len(),
{
    if pairs.len() == 0 {
        Seq::empty()
    } else {
        let (u, pok) = pairs.last();
        seed_body(pairs.drop_last()) + u.enc() + pok.r_pt.enc() + pok.z.spec_encoding()
    }
}

pub open spec fn batch_seed(pairs: Seq<(Point, SchnorrDLogProof)>) -> Seq<u8> {
    sha512_spec(
        "batch-schnorr-seed-v1".spec_bytes() + u64_le(pairs.len() as u64) + seed_body(pairs),
    )
}

/// The weight of pair `i` in the batched check.
pub open spec fn batch_w(seed: Seq<u8>, i: int) -> int {
    modl(le_value(sha512_spec("batch-schnorr-weight-v1".spec_bytes() + seed + u64_le(i as u64))))
}

/// The scalars of the batched multiscalar check, pair by pair:
/// `-w_i` on `R_i` and `-w_i c_i` on `u_i`.
#[verifier::opaque]
pub open spec fn bv_scalars(pairs: Seq<(Point, SchnorrDLogProof)>, seed: Seq<u8>) -> Seq<int>
    decreases pairs.len(),
{
    if pairs.len() == 0 {
        Seq::empty()
    } else {
        let (u, pok) = pairs.last();
        let w = batch_w(seed, pairs.len() - 1);
        let c = schnorr_c(u.enc(), pok.r_pt.enc());
        bv_scalars(pairs.drop_last(), seed).push(modl(-w)).push(modl(-modl(w * c)))
    }
}

/// The elements of the batched check, pair by pair: `R_i` then `u_i`.
#[verifier::opaque]
pub open spec fn bv_points(pairs: Seq<(Point, SchnorrDLogProof)>) -> Seq<int>
    decreases pairs.len(),
{
    if pairs.len() == 0 {
        Seq::empty()
    } else {
        let (u, pok) = pairs.last();
        bv_points(pairs.drop_last()).push(pok.r_pt@).push(u@)
    }
}

/// `sum w_i z_i`, the scalar on `g` in the batched check.
#[verifier::opaque]
pub open spec fn bv_gsum(pairs: Seq<(Point, SchnorrDLogProof)>, seed: Seq<u8>) -> int
    decreases pairs.len(),
{
    if pairs.len() == 0 {
        0
    } else {
        let (u, pok) = pairs.last();
        let w = batch_w(seed, pairs.len() - 1);
        modl(bv_gsum(pairs.drop_last(), seed) + modl(w * pok.z@))
    }
}

/// The batched check of proofs of knowledge: one multiscalar multiplication
/// with hash-derived weights must give the neutral element.
pub open spec fn batch_check(pairs: Seq<(Point, SchnorrDLogProof)>) -> bool {
    let seed = batch_seed(pairs);
    pairs.len() == 0 || modl(
        lin_comb(bv_scalars(pairs, seed).push(bv_gsum(pairs, seed)), bv_points(pairs).push(1)),
    ) == 0
}

/// Every pair holds an honestly made proof of knowledge for its element.
pub open spec fn pairs_honest(pairs: Seq<(Point, SchnorrDLogProof)>) -> bool {
    forall|i: int| 0 <= i < pairs.len() ==> is_honest_pok((#[trigger] pairs[i]).0, pairs[i].0@, pairs[i].1)
}

/// For honest pairs the weighted elements cancel the weighted responses.
proof fn lemma_bv_honest_sum(pairs: Seq<(Point, SchnorrDLogProof)>, seed: Seq<u8>)
    requires
        pairs_honest(pairs),
    ensures
        modl(lin_comb(bv_scalars(pairs, seed), bv_points(pairs)) + bv_gsum(pairs, seed)) == 0,
    decreases pairs.len(),
{
    reveal(bv_scalars);
    reveal(bv_points);
    reveal(bv_gsum);
    lemma_modl_bound(0);
    if pairs.len() > 0 {
        let rest = pairs.drop_last();
        assert(pairs_honest(rest)) by {
            assert forall|i: int| 0 <= i < rest.len() implies is_honest_pok((#[trigger] rest[i]).0, rest[i].0@, rest[i].1) by {
                assert(rest[i] == pairs[i]);
            }
        }
        lemma_bv_honest_sum(rest, seed);
        let (u, pok) = pairs.last();
        assert(is_honest_pok(pairs[pairs.len() - 1].0, pairs[pairs.len() - 1].0@, pairs[pairs.len() - 1].1));
        let w = batch_w(seed, pairs.len() - 1);
        let c = schnorr_c(u.enc(), pok.r_pt.enc());
        let a = u@;
        let z = pok.z@;
        let r = pok.r_pt@;
        let s0 = bv_scalars(rest, seed);
        let p0 = bv_points(rest);
        let l0 = lin_comb(s0, p0);
        let g0 = bv_gsum(rest, seed);
        crate::one_round_proofs::completeness::lemma_lin_comb_push(s0, p0, modl(-w), r);
        crate::one_round_proofs::completeness::lemma_lin_comb_push(s0.push(modl(-w)), p0.push(r), modl(-modl(w * c)), a);
        // each term reduced
        lemma_modl_mul(-w, r);
        lemma_modl_idem(z - c * a);
        lemma_modl_mul_cong(-w, r, -w, z - c * a);
        lemma_modl_mul(w, c);
        lemma_modl_neg_cong(modl(w * c), w * c);
        lemma_modl_idem(w * c);
        lemma_modl_mul_cong(modl(-modl(w * c)), a, -(w * c), a);
        lemma_modl_idem(-modl(w * c));
        lemma_modl_idem(-w);
        lemma_modl_mul_cong(modl(-w), r, -w, r);
        lemma_modl_add(g0, modl(w * z));
        lemma_modl_add(g0, w * z);
        lemma_modl_idem(g0 + w * z);
        let t1 = modl(-w) * r;
        let t2 = modl(-modl(w * c)) * a;
        lemma_modl_add_cong(t1, t2, -w * (z - c * a), -(w * c) * a);
        lemma_modl_add_cong(l0 + g0, t1 + t2, 0, -w * (z - c * a) + -(w * c) * a);
        assert(-w * (z - c * a) + -(w * c) * a == -(w * z)) by (nonlinear_arith);
        lemma_modl_add_cong(l0 + g0 + (t1 + t2), modl(g0 + w * z) - g0, 0 + -(w * z), w * z);
        assert(l0 + t1 + t2 + modl(g0 + modl(w * z)) == l0 + g0 + (t1 + t2) + (modl(g0 + w * z) - g0));
    }
}

/// A batch of honestly made proofs of knowledge passes the batched check.
pub proof fn lemma_batch_check_honest(pairs: Seq<(Point, SchnorrDLogProof)>)
    requires
        pairs_honest(pairs),
    ensures
        batch_check(pairs),
{
    let seed = batch_seed(pairs);
    lemma_bv_honest_sum(pairs, seed);
    crate::one_round_proofs::completeness::lemma_lin_comb_push(bv_scalars(pairs, seed), bv_points(pairs), bv_gsum(pairs, seed), 1);
    assert(bv_gsum(pairs, seed) * 1 == bv_gsum(pairs, seed));
}

proof fn lemma_bv_step(pairs: Seq<(Point, SchnorrDLogProof)>, i: int, sd: Seq<u8>)
    requires
        0 <= i < pairs.len(),
    ensures
        ({
            let p0 = pairs.subrange(0, i);
            let p1 = pairs.subrange(0, i + 1);
            let (u, pok) = pairs[i];
            let w = batch_w(sd, i);
            let c = schnorr_c(u.enc(), pok.r_pt.enc());
            &&& bv_scalars(p1, sd) == bv_scalars(p0, sd).push(modl(-w)).push(modl(-modl(w * c)))
            &&& bv_points(p1) == bv_points(p0).push(pok.r_pt@).push(u@)
            &&& bv_gsum(p1, sd) == modl(bv_gsum(p0, sd) + modl(w * pok.z@))
        }),
{
    let p1 = pairs.subrange(0, i + 1);
    assert(p1.drop_last() =~= pairs.subrange(0, i));
    assert(p1.last() == pairs[i]);
    reveal(bv_scalars);
    reveal(bv_points);
    reveal(bv_gsum);
}

proof fn lemma_seed_step(pairs: Seq<(Point, SchnorrDLogProof)>, i: int)
    requires
        0 <= i < pairs.len(),
    ensures
        seed_body(pairs.subrange(0, i + 1)) == seed_body(pairs.subrange(0, i)) + pairs[i].0.enc()
            + pairs[i].1.r_pt.enc() + pairs[i].1.z.spec_encoding(),
{
    let p1 = pairs.subrange(0, i + 1);
    assert(p1.drop_last() =~= pairs.subrange(0, i));
    reveal(seed_body);
}

fn batch_weight(seed: &[u8; 64], i: usize) -> (r: Scalar)
    ensures
        r@ == batch_w(seed@, i as int),
{
    let mut m = str_bytes("batch-schnorr-weight-v1");
    push_bytes(&mut m, seed);
    push_u64(&mut m, i as u64);
    let d = sha512(m.as_slice());
    Scalar::from_bytes_mod_order_wide(&d)
}

#[verifier::rlimit(50)]
fn batch_verify_u_pok_pairs(pairs: &[(Point, SchnorrDLogProof)]) -> (r: bool)
    ensures
        r == batch_check(pairs@),
{
    if pairs.len() == 0 {
        return true;
    }
    let mut m = str_bytes("batch-schnorr-seed-v1");
    push_u64(&mut m, pairs.len() as u64);
    let ghost head = m@;
    let mut i: usize = 0;
    proof {
        reveal(seed_body);
    }
    while i < pairs.len()
        invariant
            i <= pairs@.len(),
            m@ == head + seed_body(pairs@.subrange(0, i as int)),
        decreases pairs@.len() - i,
    {
        let (u, pok) = pairs[i];
        let ub = u.to_bytes();
        let rb = pok.r_pt.to_bytes();
        let zb = pok.z.to_bytes();
        push_bytes(&mut m, &ub);
        push_bytes(&mut m, &rb);
        push_bytes(&mut m, &zb);
        proof {
            lemma_seed_step(pairs@, i as int);
            assert(m@ =~= head + seed_body(pairs@.subrange(0, i + 1)));
        }
        i = i + 1;
    }
    proof {
        assert(pairs@.subrange(0, pairs@.len() as int) =~= pairs@);
    }
    let seed = sha512(m.as_slice());
    let ghost sd = seed@;
    let mut g_scalar = Scalar::zero();
    let mut scalars: Vec<Scalar> = Vec::new();
    let mut points: Vec<Point> = Vec::new();
    let mut i: usize = 0;
    proof {
        reveal(bv_scalars);
        reveal(bv_points);
        reveal(bv_gsum);
        assert(svals(scalars@) =~= Seq::<int>::empty());
        assert(dlogs(points@) =~= Seq::<int>::empty());
    }
    while i < pairs.len()
        invariant
            i <= pairs@.len(),
            sd == batch_seed(pairs@),
            seed@ == sd,
            scalars@.len() == 2 * i,
            points@.len() == 2 * i,
            svals(scalars@) == bv_scalars(pairs@.subrange(0, i as int), sd),
            dlogs(points@) == bv_points(pairs@.subrange(0, i as int)),
            g_scalar@ == bv_gsum(pairs@.subrange(0, i as int), sd),
        decreases pairs@.len() - i,
    {
        let (u, pok) = pairs[i];
        let w = batch_weight(&seed, i);
        let c = schnorr_challenge(&u, &pok.r_pt);
        let wz = w.mul(&pok.z);
        g_scalar = g_scalar.add(&wz);
        let ghost old_s = scalars@;
        let ghost old_p = points@;
        let nw = w.neg();
        let wc = w.mul(&c);
        let nwc = wc.neg();
        assert(nw@ == modl(-batch_w(sd, i as int)));
        scalars.push(nw);
        points.push(pok.r_pt);
        scalars.push(nwc);
        points.push(u);
        assert(scalars@ == old_s.push(nw).push(nwc));
        proof {
            lemma_bv_step(pairs@, i as int, sd);
            assert(u == pairs@[i as int].0);
            assert(pok == pairs@[i as int].1);
            assert(scalars@[2 * i]@ == modl(-batch_w(sd, i as int)));
            assert(scalars@[2 * i + 1]@ == modl(-modl(batch_w(sd, i as int) * schnorr_c(u.enc(), pok.r_pt.enc()))));
            assert(g_scalar@ == modl(bv_gsum(pairs@.subrange(0, i as int), sd) + modl(batch_w(sd, i as int) * pok.z@)));
            assert(svals(scalars@) =~= svals(old_s).push(scalars@[i * 2]@).push(
                scalars@[i * 2 + 1]@,
            ));
            assert(dlogs(points@) =~= dlogs(old_p).push(points@[i * 2]@).push(
                points@[i * 2 + 1]@,
            ));
        }
        i = i + 1;
    }
    proof {
        assert(pairs@.subrange(0, pairs@.len() as int) =~= pairs@);
    }
    let ghost s0 = scalars@;
    let ghost p0 = points@;
    scalars.push(g_scalar);
    points.push(Point::generator());
    proof {
        assert(svals(scalars@) =~= svals(s0).push(g_scalar@));
        assert(dlogs(points@) =~= dlogs(p0).push(1));
    }
    let total = multiscalar_mul(scalars.as_slice(), points.as_slice());
    let id = Point::identity();
    total.equals(&id)
}

/// Checks a proof of knowledge of `log_g u`.
pub fn verify_dlog(u: &Point, pok: &SchnorrDLogProof) -> (r: bool)
    ensures
        r == batch_check(seq![(*u, *pok)]),
{
    let pairs = [(*u, *pok)];
    let r = batch_verify_u_pok_pairs(&pairs);
    assert(pairs@ =~= seq![(*u, *pok)]);
    r
}

/// A fresh encryption key pair `(sk, g^sk)`.
pub fn keygen() -> (r: (Scalar, Point))
    ensures
        r.1@ == r.0@,
        0 <= r.0@ < group_order(),
{
    let sk = Scalar::random();
    let pk = Point::basepoint_mul(&sk);
    proof {
        lemma_modl_bound(sk@);
    }
    (sk, pk)
}

/// The ciphertext `(g^alpha, m1 + k1, m2 + k2)` with the keys hashed from
/// `pk^alpha`.
pub open spec fn encrypts(pk: int, alpha: int, m1: int, m2: int, ct: HashedElgamalCiphertext2) -> bool {
    &&& ct.u@ == modl(alpha)
    &&& ct.v1@ == modl(m1 + key1(modl(pk * alpha)))
    &&& ct.v2@ == modl(m2 + key2(modl(pk * alpha)))
    &&& is_honest_pok(ct.u, alpha, ct.pok)
}

/// Encrypts two scalars to `pk` under a fresh ephemeral key.
pub fn encrypt_two_scalars(pk: &Point, m1: Scalar, m2: Scalar) -> (ct: HashedElgamalCiphertext2)
    ensures
        exists|alpha: int| 0 <= alpha < group_order() && encrypts(pk@, alpha, m1@, m2@, ct),
{
    let alpha = Scalar::random();
    let u = Point::basepoint_mul(&alpha);
    let shared = pk.mul(&alpha);
    let (k1, k2) = hash_to_two_scalars(&shared);
    let pok = prove_dlog(&u, &alpha);
    let ct = HashedElgamalCiphertext2 { u, v1: m1.add(&k1), v2: m2.add(&k2), pok };
    proof {
        lemma_modl_bound(alpha@);
        assert(encrypts(pk@, alpha@, m1@, m2@, ct));
    }
    ct
}

/// Removes the masks with the receiver's key: `(v1 - k1, v2 - k2)` for the
/// keys hashed from `u^sk`.
pub fn decrypt_two_scalars(sk: &Scalar, ct: &HashedElgamalCiphertext2) -> (r: (Scalar, Scalar))
    ensures
        r.0@ == modl(ct.v1@ - key1(modl(ct.u@ * sk@))),
        r.1@ == modl(ct.v2@ - key2(modl(ct.u@ * sk@))),
{
    let shared = ct.u.mul(sk);
    let (k1, k2) = hash_to_two_scalars(&shared);
    (ct.v1.sub(&k1), ct.v2.sub(&k2))
}

/// The share a batch holds for receiver `idx`, if any.
pub fn share_for(b: &BatchEncryptedShares, idx: usize) -> (r: Option<&EncryptedShare>)
    ensures
        r matches Some(s) ==> b.shares@.contains_key(idx) && *s == b.shares@[idx],
        r is None ==> !b.shares@.contains_key(idx),
{
    b.shares.get(&idx)
}

/// Opens an [`EncryptedShare`] from the Diffie-Hellman value `shared = u^sk`,
/// without the receiver's key.
pub fn open_share_with_shared(shared: &Point, share: &EncryptedShare) -> (r: (Scalar, Scalar))
    ensures
        r.0@ == modl(share.v1@ - key1(shared@)),
        r.1@ == modl(share.v2@ - key2(shared@)),
{
    let (k1, k2) = hash_to_two_scalars(shared);
    (share.v1.sub(&k1), share.v2.sub(&k2))
}

/// The share pair masked for a receiver with key `pk` under ephemeral `alpha`.
pub open spec fn masked_share(pk: int, alpha: int, m1: int, m2: int) -> (int, int) {
    (modl(m1 + key1(modl(pk * alpha))), modl(m2 + key2(modl(pk * alpha))))
}

/// The map of masked shares, receivers inserted in order.
pub open spec fn batch_shares(
    receivers: Seq<(usize, Point)>,
    m1s: Seq<Scalar>,
    m2s: Seq<Scalar>,
    alpha: int,
) -> Map<usize, (int, int)>
    decreases receivers.len(),
{
    if receivers.len() == 0 {
        Map::empty()
    } else {
        let n = receivers.len() - 1;
        batch_shares(receivers.drop_last(), m1s.subrange(0, n), m2s.subrange(0, n), alpha).insert(
            receivers[n].0,
            masked_share(receivers[n].1@, alpha, m1s[n]@, m2s[n]@),
        )
    }
}

/// The values held by a map of encrypted shares.
pub open spec fn share_values(m: Map<usize, EncryptedShare>) -> Map<usize, (int, int)> {
    m.map_values(|s: EncryptedShare| (s.v1@, s.v2@))
}

/// Receivers with strictly increasing indices: each one's entry in the map
/// of masked shares is its own masked pair.
pub proof fn lemma_batch_shares_lookup(
    receivers: Seq<(usize, Point)>,
    m1s: Seq<Scalar>,
    m2s: Seq<Scalar>,
    alpha: int,
    q: int,
)
    requires
        0 <= q < receivers.len(),
        receivers.len() == m1s.len(),
        receivers.len() == m2s.len(),
        forall|i: int, j: int| 0 <= i < j < receivers.len() ==> receivers[i].0 < receivers[j].0,
    ensures
        batch_shares(receivers, m1s, m2s, alpha).contains_key(receivers[q].0),
        batch_shares(receivers, m1s, m2s, alpha)[receivers[q].0] == masked_share(
            receivers[q].1@,
            alpha,
            m1s[q]@,
            m2s[q]@,
        ),
    decreases receivers.len(),
{
    let n = receivers.len() - 1;
    if q < n {
        let r0 = receivers.drop_last();
        let a0 = m1s.subrange(0, n);
        let b0 = m2s.subrange(0, n);
        assert forall|i: int, j: int| 0 <= i < j < r0.len() implies r0[i].0 < r0[j].0 by {
            assert(r0[i] == receivers[i] && r0[j] == receivers[j]);
        }
        lemma_batch_shares_lookup(r0, a0, b0, alpha, q);
        assert(r0[q] == receivers[q]);
        assert(a0[q] == m1s[q] && b0[q] == m2s[q]);
        assert(receivers[q].0 < receivers[n].0);
    }
}

/// Encrypts one share pair per receiver under a single ephemeral key.
pub fn encrypt_batch(receivers: &[(usize, Point)], m1s: &[Scalar], m2s: &[Scalar]) -> (r:
    BatchEncryptedShares)
    requires
        receivers@.len() == m1s@.len(),
        receivers@.len() == m2s@.len(),
    ensures
        exists|alpha: int|
            0 <= alpha < group_order() && r.u@ == alpha && is_honest_pok(r.u, alpha, r.pok)
                && share_values(r.shares@) == batch_shares(receivers@, m1s@, m2s@, alpha),
{
    let (alpha, u) = keygen();
    let pok = prove_dlog(&u, &alpha);
    let mut shares: BTreeMap<usize, EncryptedShare> = BTreeMap::new();
    let mut i: usize = 0;
    while i < receivers.len()
        invariant
            i <= receivers@.len(),
            receivers@.len() == m1s@.len(),
            receivers@.len() == m2s@.len(),
            share_values(shares@) == batch_shares(
                receivers@.subrange(0, i as int),
                m1s@.subrange(0, i as int),
                m2s@.subrange(0, i as int),
                alpha@,
            ),
        decreases receivers@.len() - i,
    {
        let (idx, pk) = receivers[i];
        let shared = pk.mul(&alpha);
        let (k1, k2) = hash_to_two_scalars(&shared);
        let share = EncryptedShare { v1: m1s[i].add(&k1), v2: m2s[i].add(&k2) };
        let ghost old_m = shares@;
        shares.insert(idx, share);
        proof {
            let rs = receivers@.subrange(0, i + 1);
            assert(rs.drop_last() =~= receivers@.subrange(0, i as int));
            assert(m1s@.subrange(0, i + 1).subrange(0, i as int) =~= m1s@.subrange(0, i as int));
            assert(m2s@.subrange(0, i + 1).subrange(0, i as int) =~= m2s@.subrange(0, i as int));
            assert(share_values(shares@) =~= share_values(old_m).insert(idx, (share.v1@, share.v2@)));
        }
        i = i + 1;
    }
    proof {
        assert(receivers@.subrange(0, receivers@.len() as int) =~= receivers@);
        assert(m1s@.subrange(0, m1s@.len() as int) =~= m1s@);
        assert(m2s@.subrange(0, m2s@.len() as int) =~= m2s@);
    }
    let r = BatchEncryptedShares { u, pok, shares };
    assert(is_honest_pok(r.u, alpha@, r.pok));
    r
}

/// The pairs `(u, pok)` of a list of batches.
pub open spec fn batch_pairs(batches: Seq<&BatchEncryptedShares>) -> Seq<(Point, SchnorrDLogProof)> {
    batches.map_values(|b: &BatchEncryptedShares| (b.u, b.pok))
}

/// The indices of the batches whose proof of knowledge fails on its own, in order.
pub open spec fn failing_batches(batches: Seq<&BatchEncryptedShares>) -> Seq<usize>
    decreases batches.len(),
{
    if batches.len() == 0 {
        Seq::empty()
    } else {
        let n = batches.len() - 1;
        let rest = failing_batches(batches.drop_last());
        if batch_check(seq![(batches[n].u, batches[n].pok)]) {
            rest
        } else {
            rest.push(n as usize)
        }
    }
}

/// Every listed index is a batch whose proof fails on its own.
pub proof fn lemma_failing_batches(batches: Seq<&BatchEncryptedShares>)
    requires
        batches.len() <= usize::MAX,
    ensures
        forall|k: int|
            0 <= k < failing_batches(batches).len() ==> {
                &&& (#[trigger] failing_batches(batches)[k] as int) < batches.len()
                &&& !batch_check(
                    seq![
                        (batches[failing_batches(batches)[k] as int].u, batches[failing_batches(batches)[k] as int].pok),
                    ],
                )
            },
    decreases batches.len(),
{
    if batches.len() > 0 {
        let rest = batches.drop_last();
        lemma_failing_batches(rest);
        assert forall|k: int| 0 <= k < failing_batches(rest).len() implies rest[failing_batches(rest)[k] as int]
            == batches[failing_batches(rest)[k] as int] by {}
    }
}

/// What the receiver `my_idx` opens from one batch with its key.
pub open spec fn opened_share(sk: int, b: &BatchEncryptedShares, my_idx: usize) -> Option<(int, int)> {
    if b.shares@.contains_key(my_idx) {
        let s = b.shares@[my_idx];
        Some((modl(s.v1@ - key1(modl(b.u@ * sk))), modl(s.v2@ - key2(modl(b.u@ * sk)))))
    } else {
        None
    }
}

/// The values of a list of optional opened pairs.
pub open spec fn opened_values(v: Seq<Option<(Scalar, Scalar)>>) -> Seq<Option<(int, int)>> {
    v.map_values(
        |o: Option<(Scalar, Scalar)>|
            match o {
                Some(p) => Some((p.0@, p.1@)),
                None => None,
            },
    )
}

/// `init` plus the part (0: share, 1: blinding) of each of the first `k`
/// opened pairs, reduced at every step.
pub open spec fn opened_sum(ds: Seq<Option<(Scalar, Scalar)>>, k: int, init: int, part: int) -> int
    decreases k,
{
    if k <= 0 {
        init
    } else {
        let p = ds[k - 1].unwrap();
        modl(opened_sum(ds, k - 1, init, part) + if part == 0 {
            p.0@
        } else {
            p.1@
        })
    }
}

/// Checks every batch's proof of knowledge at once and opens the receiver's
/// pair from each batch that holds one. When the batched check fails, the
/// indices of the batches that fail on their own come back instead.
pub fn decrypt_my_shares(sk: &Scalar, batches: &[&BatchEncryptedShares], my_idx: usize) -> (r:
    Result<Vec<Option<(Scalar, Scalar)>>, Vec<usize>>)
    ensures
        batches@.len() == 0 ==> (r matches Ok(v) && v@.len() == 0),
        batches@.len() > 0 && !batch_check(batch_pairs(batches@)) ==> (r matches Err(f) && f@
            == failing_batches(batches@)),
        (batches@.len() == 0 || batch_check(batch_pairs(batches@))) ==> (r matches Ok(v)
            && v@.len() == batches@.len() && forall|i: int|
            0 <= i < batches@.len() ==> opened_values(v@)[i] == opened_share(
                sk@,
                batches@[i],
                my_idx,
            )),
{
    if batches.len() == 0 {
        return Ok(Vec::new());
    }
    let mut pairs: Vec<(Point, SchnorrDLogProof)> = Vec::new();
    let mut i: usize = 0;
    while i < batches.len()
        invariant
            i <= batches@.len(),
            pairs@ == batch_pairs(batches@.subrange(0, i as int)),
        decreases batches@.len() - i,
    {
        pairs.push((batches[i].u, batches[i].pok));
        proof {
            assert(batch_pairs(batches@.subrange(0, i + 1)) =~= batch_pairs(
                batches@.subrange(0, i as int),
            ).push((batches@[i as int].u, batches@[i as int].pok)));
        }
        i = i + 1;
    }
    proof {
        assert(batches@.subrange(0, batches@.len() as int) =~= batches@);
    }
    if !batch_verify_u_pok_pairs(pairs.as_slice()) {
        let mut failed: Vec<usize> = Vec::new();
        let mut j: usize = 0;
        while j < batches.len()
            invariant
                j <= batches@.len(),
                failed@ == failing_batches(batches@.subrange(0, j as int)),
            decreases batches@.len() - j,
        {
            let one = [(batches[j].u, batches[j].pok)];
            let ok = batch_verify_u_pok_pairs(&one);
            proof {
                assert(one@ =~= seq![(batches@[j as int].u, batches@[j as int].pok)]);
                assert(batches@.subrange(0, j + 1).drop_last() =~= batches@.subrange(0, j as int));
            }
            if !ok {
                failed.push(j);
            }
            j = j + 1;
        }
        proof {
            assert(batches@.subrange(0, batches@.len() as int) =~= batches@);
        }
        return Err(failed);
    }
    let mut out: Vec<Option<(Scalar, Scalar)>> = Vec::new();
    let mut j: usize = 0;
    while j < batches.len()
        invariant
            j <= batches@.len(),
            out@.len() == j,
            forall|k: int|
                0 <= k < j ==> opened_values(out@)[k] == opened_share(sk@, batches@[k], my_idx),
        decreases batches@.len() - j,
    {
        let b = batches[j];
        let got = match b.shares.get(&my_idx) {
            Some(share) => {
                let shared = b.u.mul(sk);
                let (k1, k2) = hash_to_two_scalars(&shared);
                Some((share.v1.sub(&k1), share.v2.sub(&k2)))
            },
            None => None,
        };
        let ghost old_out = out@;
        out.push(got);
        proof {
            assert(out@ =~= old_out.push(got));
            assert forall|k: int| 0 <= k < j + 1 implies opened_values(out@)[k] == opened_share(
                sk@,
                batches@[k],
                my_idx,
            ) by {
                if k < j {
                    assert(out@[k] == old_out[k]);
                    assert(opened_values(out@)[k] == opened_values(old_out)[k]);
                }
            }
        }
        j = j + 1;
    }
    Ok(out)
}

/// Decryption undoes encryption: a ciphertext made for `g^sk` opens with `sk`
/// to the two scalars it was made of.
pub proof fn lemma_decrypt_encrypt(sk: int, alpha: int, m1: int, m2: int, ct: HashedElgamalCiphertext2)
    requires
        0 <= sk < group_order(),
        encrypts(sk, alpha, m1, m2, ct),
    ensures
        modl(ct.v1@ - key1(modl(ct.u@ * sk))) == modl(m1),
        modl(ct.v2@ - key2(modl(ct.u@ * sk))) == modl(m2),
{
    lemma_modl_mul(alpha, sk);
    assert(alpha * sk == sk * alpha) by (nonlinear_arith);
    let k = modl(sk * alpha);
    lemma_modl_sub(m1 + key1(k), key1(k));
    lemma_modl_sub(m2 + key2(k), key2(k));
}

} // verus!
