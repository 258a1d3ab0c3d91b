//! Well-formedness through two `bulletproofs` linear proofs: the weights
//! `lambda` fold the statement into `<a, mu> + h <omega, lambda_tail>`, and one
//! linear proof covers each inner product.

use crate::arith::{group_order, le_value, modl};
use crate::bytes::u64_le;
use crate::group::{compressed_multiple, dlogs, h_dlog, lin_comb, svals, Point};
use crate::one_round_proofs::helpers::{
    append_statement_to_transcript, batched_statement_ops, combine_publics, compute_mus,
    derive_lambdas, mu_value,
};
use crate::one_round_proofs::polyproof_schnorr::{PolyWellFormedStatement, PolyWellFormedWitness};
use crate::one_round_proofs::utils::com_dlogs;
use crate::one_round_proofs::PolyProofScheme;
use crate::scalar::Scalar;
use crate::transcript::{
    append_u64, challenge_point, indexed_values, merlin_challenge, new_transcript, op_append,
    op_challenge, op_init, transcript_contents, TranscriptOp,
};
use bulletproofs::LinearProof;
use curve25519_dalek::ristretto::CompressedRistretto;
use curve25519_dalek::scalar::Scalar as DalekScalar;
use merlin::Transcript;
use vstd::arithmetic::power2::pow2;
use vstd::prelude::*;
use vstd::string::StringSliceAdditionalSpecFns;

verus! {

/// Whether `bulletproofs::LinearProof::verify` accepts the proof encoded by
/// `proof` (as `LinearProof::to_bytes` writes it) for commitment `c`,
/// generators `gens`, Pedersen generators `f` and `b` and public vector
/// `b_vec`, on a transcript with the given history.
pub uninterp spec fn linear_proof_verifies(
    history: Seq<TranscriptOp>,
    proof: Seq<u8>,
    c: Seq<u8>,
    gens: Seq<Seq<u8>>,
    f: Seq<u8>,
    b: Seq<u8>,
    b_vec: Seq<int>,
) -> bool;

/// The 32-byte little-endian encoding of a scalar value.
pub open spec fn enc32(v: int) -> Seq<u8> {
    choose|e: Seq<u8>| e.len() == 32 && le_value(e) == v
}

/// What a linear proof absorbs before its rounds: the domain separator and
/// length, then `C`, the public vector, the generators, `F` and `B`.
pub open spec fn linear_public_ops(c: Seq<u8>, gens: Seq<Seq<u8>>, f: Seq<u8>, b: Seq<u8>, bv: Seq<int>) -> Seq<TranscriptOp> {
    seq![
        op_append("dom-sep".spec_bytes(), "ipp v1".spec_bytes()),
        op_append("n".spec_bytes(), vstd::bytes::spec_u64_to_le_bytes(bv.len() as u64)),
        op_append("C".spec_bytes(), c),
    ] + Seq::new(bv.len(), |i: int| op_append("b_i".spec_bytes(), enc32(bv[i]))) + Seq::new(
        gens.len(),
        |i: int| op_append("G_i".spec_bytes(), gens[i]),
    ) + seq![op_append("F".spec_bytes(), f), op_append("B".spec_bytes(), b)]
}

/// The encoding of `L_j` in a proof's bytes.
pub open spec fn proof_l(p: Seq<u8>, j: int) -> Seq<u8> {
    p.subrange(64 * j, 64 * j + 32)
}

/// The encoding of `R_j` in a proof's bytes.
pub open spec fn proof_r(p: Seq<u8>, j: int) -> Seq<u8> {
    p.subrange(64 * j + 32, 64 * j + 64)
}

/// The transcript before round `j`'s challenge is drawn: the public part, then
/// `L_k`, `R_k` and the challenge `x_k` of every earlier round, then `L_j`
/// and `R_j`.
pub open spec fn linear_round_history(h0: Seq<TranscriptOp>, p: Seq<u8>, j: int) -> Seq<TranscriptOp>
    decreases j,
{
    let lr = seq![op_append("L".spec_bytes(), proof_l(p, j)), op_append("R".spec_bytes(), proof_r(p, j))];
    if j <= 0 {
        h0 + lr
    } else {
        linear_round_history(h0, p, j - 1) + seq![op_challenge("x_j".spec_bytes())] + lr
    }
}

/// None of the proof's rounds has an identity `L_j` or `R_j` (the all-zero
/// encoding) or draws a zero challenge `x_j`, on a transcript with the given
/// history.
pub open spec fn linear_proof_nondegenerate(
    history: Seq<TranscriptOp>,
    proof: Seq<u8>,
    c: Seq<u8>,
    gens: Seq<Seq<u8>>,
    f: Seq<u8>,
    b: Seq<u8>,
    bv: Seq<int>,
) -> bool {
    let zero = Seq::new(32, |i: int| 0u8);
    let h0 = history + linear_public_ops(c, gens, f, b, bv);
    forall|j: int|
        0 <= j && 64 * j + 160 <= proof.len() ==> {
            &&& proof_l(proof, j) != zero
            &&& proof_r(proof, j) != zero
            &&& modl(le_value(merlin_challenge(#[trigger] linear_round_history(h0, proof, j), "x_j".spec_bytes()))) != 0
        }
}

/// The encodings of a sequence of elements.
pub open spec fn encs(ps: Seq<Point>) -> Seq<Seq<u8>> {
    ps.map_values(|p: Point| p.enc())
}

/// `c` encodes `<a, G> + [r]B + [<a, b>]F`, where `G` are the elements with the
/// given encodings and `F`, `B` have discrete logarithms `f`, `b`.
pub open spec fn linear_opening(c: Seq<u8>, r: int, a: Seq<int>, bv: Seq<int>, gens: Seq<Seq<u8>>, f: int, b: int) -> bool {
    exists|ks: Seq<int>|
        #![trigger lin_comb(ks, a)]
        ks.len() == gens.len() && (forall|i: int|
            0 <= i < ks.len() ==> 0 <= #[trigger] ks[i] < group_order() && compressed_multiple(ks[i]) == gens[i])
            && c == compressed_multiple(modl(lin_comb(ks, a) + b * r + f * lin_comb(a, bv)))
}

/// `LinearProof::create` followed by `to_bytes`, on generators that encode
/// group elements (the body decompresses them). `create` refuses exactly when
/// the vectors differ in length or their length is not a power of two. The
/// proof draws fresh nonces from the operating system, and whether it
/// verifies depends on them: when `c` is the commitment `<a, G> + [r]B +
/// [<a, b>]F` that the proof is about, the proof verifies on a transcript
/// with the history this one had, unless some round has an identity `L` or
/// `R` (which `verify` refuses and `create` does not avoid) or draws a zero
/// challenge (whose inverse `create` takes as zero), or the vectors have
/// `2^32` entries or more (`verify` refuses that many rounds). Nothing is
/// said of the nonces themselves.
#[verifier::external_body]
fn bp_linear_create(
    transcript: &mut Transcript,
    c: &[u8; 32],
    r: &Scalar,
    a_vec: &[Scalar],
    b_vec: &[Scalar],
    gens: &[[u8; 32]],
    f: &Point,
    b: &Point,
) -> (res: Option<Vec<u8>>)
    requires
        forall|i: int| 0 <= i < gens@.len() ==> crate::group::is_point(#[trigger] gens@[i]@),
    ensures
        res is Some <==> (gens@.len() == b_vec@.len() && a_vec@.len() == b_vec@.len()
            && exists|k: nat| b_vec@.len() == #[trigger] pow2(k)),
        res matches Some(p) ==> (linear_opening(
            c@,
            r@,
            svals(a_vec@),
            svals(b_vec@),
            gens@.map_values(|g: [u8; 32]| g@),
            f@,
            b@,
        ) && b_vec@.len() < 0x1_0000_0000 && linear_proof_nondegenerate(
            transcript_contents(*old(transcript)),
            p@,
            c@,
            gens@.map_values(|g: [u8; 32]| g@),
            f.enc(),
            b.enc(),
            svals(b_vec@),
        ) ==> linear_proof_verifies(
            transcript_contents(*old(transcript)),
            p@,
            c@,
            gens@.map_values(|g: [u8; 32]| g@),
            f.enc(),
            b.enc(),
            svals(b_vec@),
        )),
{
    let dec = |x: &[u8; 32]| CompressedRistretto(*x).decompress().unwrap();
    let sc = |s: &Scalar| DalekScalar::from_bytes_mod_order(s.to_bytes());
    LinearProof::create(transcript, &mut rand::rngs::OsRng, &CompressedRistretto(*c), sc(r),
        a_vec.iter().map(sc).collect(), b_vec.iter().map(sc).collect(),
        gens.iter().map(dec).collect(), &dec(&f.to_bytes()), &dec(&b.to_bytes()))
        .ok().map(|p| p.to_bytes())
}

/// `LinearProof::from_bytes` followed by `LinearProof::verify`; `false` when
/// the bytes encode no proof.
#[verifier::external_body]
fn bp_linear_verify(
    proof: &[u8],
    transcript: &mut Transcript,
    c: &[u8; 32],
    gens: &[[u8; 32]],
    f: &Point,
    b: &Point,
    b_vec: &[Scalar],
) -> (r: bool)
    requires
        forall|i: int| 0 <= i < gens@.len() ==> crate::group::is_point(#[trigger] gens@[i]@),
    ensures
        r == linear_proof_verifies(
            transcript_contents(*old(transcript)),
            proof@,
            c@,
            gens@.map_values(|g: [u8; 32]| g@),
            f.enc(),
            b.enc(),
            svals(b_vec@),
        ),
{
    let dec = |x: &[u8; 32]| CompressedRistretto(*x).decompress().unwrap();
    let gs: Vec<_> = gens.iter().map(dec).collect();
    let bs = b_vec.iter().map(|s| DalekScalar::from_bytes_mod_order(s.to_bytes())).collect();
    LinearProof::from_bytes(proof).map_or(false, |p| p.verify(transcript,
        &CompressedRistretto(*c), &gs, &dec(&f.to_bytes()), &dec(&b.to_bytes()), bs).is_ok())
}

/// A linear proof in its byte encoding.
#[derive(Clone, Debug)]
pub struct SerializableLinearProof(pub Vec<u8>);

/// The two linear proofs and the elements they are about.
#[derive(Clone)]
pub struct PolyWellFormedBulletproof {
    pub degree: usize,
    pub coeff_cf: Point,
    pub coeff_output: Point,
    pub coeff_proof: SerializableLinearProof,
    pub blind_cf: Point,
    pub blind_output: Point,
    pub blind_proof: SerializableLinearProof,
}

/// Generator vectors for both linear proofs, padded to powers of two.
#[derive(Clone)]
pub struct PolyWellFormedBulletproofParams {
    pub coeff_m: usize,
    pub coeff_g_vec: Vec<Point>,
    pub blind_m: usize,
    pub blind_g_vec: Vec<Point>,
}

/// `r` is the least power of two not below `x` (one for zero).
pub open spec fn is_next_pow2(x: int, r: int) -> bool {
    &&& exists|k: nat| r == #[trigger] pow2(k)
    &&& x <= r
    &&& (r == 1 || r < 2 * x)
}

/// The least power of two not below `x`.
fn next_power_of_two(x: usize) -> (r: usize)
    requires
        x <= usize::MAX / 2 + 1,
    ensures
        is_next_pow2(x as int, r as int),
{
    let mut r: usize = 1;
    let ghost mut k: nat = 0;
    proof {
        vstd::arithmetic::power2::lemma2_to64();
    }
    while r < x
        invariant
            r == pow2(k),
            r >= 1,
            r == 1 || r < 2 * x,
            x <= usize::MAX / 2 + 1,
        decreases usize::MAX - r,
    {
        proof {
            vstd::arithmetic::power2::lemma_pow2_unfold(k + 1);
        }
        r = r * 2;
        proof {
            k = k + 1;
        }
    }
    r
}

/// The encoding of generator `i` drawn under `label`.
pub open spec fn generator_enc(label: Seq<u8>, i: int) -> Seq<u8> {
    crate::group::ristretto_from_uniform(
        merlin_challenge(
            seq![op_init(label), op_append("i".spec_bytes(), u64_le(i as u64))],
            "G".spec_bytes(),
        ),
    )
}

/// `m` generators, each drawn from its own transcript under `label`.
fn generators(label: &'static str, m: usize) -> (r: Vec<Point>)
    ensures
        r@.len() == m,
        forall|i: int| 0 <= i < m ==> (#[trigger] r@[i]).enc() == generator_enc(label.spec_bytes(), i),
{
    let mut out: Vec<Point> = Vec::new();
    let mut i: usize = 0;
    while i < m
        invariant
            i <= m,
            out@.len() == i,
            forall|q: int|
                0 <= q < i ==> (#[trigger] out@[q]).enc() == generator_enc(label.spec_bytes(), q),
        decreases m - i,
    {
        let mut t = new_transcript(label);
        append_u64(&mut t, "i", i as u64);
        assert(transcript_contents(t) =~= seq![
            op_init(label.spec_bytes()),
            op_append("i".spec_bytes(), u64_le(i as u64)),
        ]);
        let g = challenge_point(&mut t, "G");
        out.push(g);
        i = i + 1;
    }
    out
}

/// Parameters for coefficient vectors of length `coeff_len` and blinding
/// vectors of length `blind_len`.
pub fn make_bulletproof_params(coeff_len: usize, blind_len: usize) -> (r: PolyWellFormedBulletproofParams)
    requires
        coeff_len <= usize::MAX / 2 + 1,
        blind_len <= usize::MAX / 2 + 1,
    ensures
        is_next_pow2(coeff_len as int, r.coeff_m as int),
        is_next_pow2(blind_len as int, r.blind_m as int),
        r.coeff_g_vec@.len() == r.coeff_m,
        r.blind_g_vec@.len() == r.blind_m,
        forall|i: int|
            0 <= i < r.coeff_m ==> (#[trigger] r.coeff_g_vec@[i]).enc() == generator_enc(
                "poly-bp-coeff-generators".spec_bytes(),
                i,
            ),
        forall|i: int|
            0 <= i < r.blind_m ==> (#[trigger] r.blind_g_vec@[i]).enc() == generator_enc(
                "poly-bp-blind-generators".spec_bytes(),
                i,
            ),
{
    let coeff_m = next_power_of_two(coeff_len);
    let blind_m = next_power_of_two(blind_len);
    let coeff_g_vec = generators("poly-bp-coeff-generators", coeff_m);
    let blind_g_vec = generators("poly-bp-blind-generators", blind_m);
    PolyWellFormedBulletproofParams { coeff_m, coeff_g_vec, blind_m, blind_g_vec }
}

/// `xs` followed by zeros up to length `m`.
pub open spec fn padded(xs: Seq<int>, m: int) -> Seq<int> {
    Seq::new(
        if xs.len() < m { m as nat } else { xs.len() },
        |i: int| if i < xs.len() { xs[i] } else { 0 },
    )
}

/// `xs` followed by zeros up to length `m`; `xs` itself when it is longer.
pub fn pad_vec(xs: &[Scalar], m: usize) -> (r: Vec<Scalar>)
    ensures
        svals(r@) == padded(svals(xs@), m as int),
{
    let mut out: Vec<Scalar> = Vec::new();
    let mut i: usize = 0;
    while i < xs.len()
        invariant
            i <= xs@.len(),
            out@.len() == i,
            forall|q: int| 0 <= q < i ==> #[trigger] out@[q] == xs@[q],
        decreases xs@.len() - i,
    {
        out.push(xs[i]);
        i = i + 1;
    }
    while out.len() < m
        invariant
            out@.len() >= xs@.len(),
            out@.len() <= m || out@.len() == xs@.len(),
            forall|q: int| 0 <= q < xs@.len() ==> #[trigger] out@[q] == xs@[q],
            forall|q: int| xs@.len() <= q < out@.len() ==> (#[trigger] out@[q])@ == 0,
        decreases m - out@.len(),
    {
        out.push(Scalar::zero());
    }
    assert(svals(out@) =~= padded(svals(xs@), m as int));
    out
}

/// `sum_i a_i * b_i` over the common length.
pub open spec fn inner(a: Seq<int>, b: Seq<int>) -> int {
    lin_comb(a, b)
}

/// `sum_i a[i] * b[i]` modulo the group order.
fn inner_product(a: &[Scalar], b: &[Scalar]) -> (r: Scalar)
    requires
        a@.len() == b@.len(),
    ensures
        r@ == modl(lin_comb(svals(a@), svals(b@))),
{
    let mut acc = Scalar::zero();
    let mut i: usize = 0;
    proof {
        crate::arith::lemma_modl_bound(0);
        assert(svals(a@).subrange(0, 0) =~= Seq::<int>::empty());
    }
    while i < a.len()
        invariant
            i <= a@.len(),
            a@.len() == b@.len(),
            acc@ == modl(lin_comb(svals(a@).subrange(0, i as int), svals(b@).subrange(0, i as int))),
        decreases a@.len() - i,
    {
        let t = a[i].mul(&b[i]);
        let ghost prev = lin_comb(svals(a@).subrange(0, i as int), svals(b@).subrange(0, i as int));
        acc = acc.add(&t);
        proof {
            let sa = svals(a@).subrange(0, i + 1);
            let sb = svals(b@).subrange(0, i + 1);
            assert(sa.drop_last() =~= svals(a@).subrange(0, i as int));
            assert(sb.drop_last() =~= svals(b@).subrange(0, i as int));
            crate::arith::lemma_modl_add(prev, modl(a@[i as int]@ * b@[i as int]@));
            crate::arith::lemma_modl_add(prev, a@[i as int]@ * b@[i as int]@);
        }
        i = i + 1;
    }
    proof {
        assert(svals(a@).subrange(0, a@.len() as int) =~= svals(a@));
        assert(svals(b@).subrange(0, b@.len() as int) =~= svals(b@));
    }
    acc
}

/// `base + sum_i gens[i] * xs[i]`.
fn fold_generators(base: Point, gens: &[Point], xs: &[Scalar]) -> (r: Point)
    requires
        gens@.len() == xs@.len(),
    ensures
        gens@.len() == 0 ==> r == base,
        gens@.len() > 0 ==> r@ == modl(base@ + lin_comb(dlogs(gens@), svals(xs@))),
{
    let mut acc = base;
    let mut i: usize = 0;
    while i < gens.len()
        invariant
            i <= gens@.len(),
            gens@.len() == xs@.len(),
            i == 0 ==> acc == base,
            i > 0 ==> acc@ == modl(base@ + lin_comb(dlogs(gens@).subrange(0, i as int), svals(xs@).subrange(0, i as int))),
        decreases gens@.len() - i,
    {
        let t = gens[i].mul(&xs[i]);
        let ghost prev = base@ + lin_comb(dlogs(gens@).subrange(0, i as int), svals(xs@).subrange(0, i as int));
        acc = acc.add(&t);
        proof {
            let sa = dlogs(gens@).subrange(0, i + 1);
            let sb = svals(xs@).subrange(0, i + 1);
            assert(sa.drop_last() =~= dlogs(gens@).subrange(0, i as int));
            assert(sb.drop_last() =~= svals(xs@).subrange(0, i as int));
            let p = gens@[i as int]@ * xs@[i as int]@;
            assert(sa.last() * sb.last() == p);
            crate::arith::lemma_modl_add(prev, modl(p));
            crate::arith::lemma_modl_add(prev, p);
            crate::arith::lemma_modl_add(modl(prev), modl(p));
            if i == 0 {
                assert(sa.drop_last().len() == 0);
                assert(lin_comb(sa.drop_last(), sb.drop_last()) == 0);
            }
            assert(prev + p == base@ + lin_comb(sa, sb));
        }
        i = i + 1;
    }
    proof {
        assert(dlogs(gens@).subrange(0, gens@.len() as int) =~= dlogs(gens@));
        assert(svals(xs@).subrange(0, xs@.len() as int) =~= svals(xs@));
    }
    acc
}

/// The encodings of the elements, as byte arrays.
fn point_encodings(ps: &[Point]) -> (r: Vec<[u8; 32]>)
    ensures
        r@.map_values(|g: [u8; 32]| g@) == encs(ps@),
        forall|i: int| 0 <= i < r@.len() ==> crate::group::is_point(#[trigger] r@[i]@),
        forall|i: int| 0 <= i < ps@.len() ==> 0 <= (#[trigger] ps@[i])@ < group_order(),
{
    let mut out: Vec<[u8; 32]> = Vec::new();
    let mut i: usize = 0;
    while i < ps.len()
        invariant
            i <= ps@.len(),
            out@.len() == i,
            forall|q: int| 0 <= q < i ==> (#[trigger] out@[q])@ == ps@[q].enc(),
            forall|q: int| 0 <= q < i ==> crate::group::is_point(#[trigger] out@[q]@),
            forall|q: int| 0 <= q < i ==> 0 <= (#[trigger] ps@[q])@ < group_order(),
        decreases ps@.len() - i,
    {
        let b = ps[i].to_bytes();
        out.push(b);
        i = i + 1;
    }
    assert(out@.map_values(|g: [u8; 32]| g@) =~= encs(ps@));
    out
}

/// The lengths and powers of two that both proofs need.
pub open spec fn params_ok(pp: PolyWellFormedBulletproofParams) -> bool {
    &&& pp.coeff_g_vec@.len() == pp.coeff_m
    &&& exists|k: nat| pp.coeff_m == #[trigger] pow2(k)
    &&& pp.blind_g_vec@.len() == pp.blind_m
    &&& exists|k: nat| pp.blind_m == #[trigger] pow2(k)
}

/// The weights `lambda_0..lambda_n` of a statement.
pub open spec fn bp_lambdas(stmt: PolyWellFormedStatement) -> Seq<int> {
    indexed_values(
        seq![op_init("poly-well-formedness-bp".spec_bytes())] + batched_statement_ops(stmt),
        "lambda_index".spec_bytes(),
        "lambda".spec_bytes(),
        stmt.x_points@.len() + 1int,
    )
}

/// The weights `mu_0..mu_degree` of a statement.
pub open spec fn bp_mus(stmt: PolyWellFormedStatement, degree: int) -> Seq<int> {
    Seq::new(
        (degree + 1) as nat,
        |j: int| mu_value(svals(stmt.x_points@), bp_lambdas(stmt), j as nat),
    )
}

/// What the verifier accepts.
pub open spec fn bulletproof_valid(
    stmt: PolyWellFormedStatement,
    proof: PolyWellFormedBulletproof,
    pp: PolyWellFormedBulletproofParams,
) -> bool {
    let n = stmt.x_points@.len();
    let lambdas = bp_lambdas(stmt);
    &&& stmt.commitments@.len() == n
    &&& params_ok(pp)
    &&& proof.degree < pp.coeff_m
    &&& n <= pp.blind_m
    &&& n < usize::MAX
    &&& modl(proof.coeff_output@ + proof.blind_output@) == modl(
        lin_comb(lambdas, seq![stmt.f0_commitment@] + com_dlogs(stmt.commitments@)),
    )
    &&& bulletproof_linear_ok(stmt, proof, pp)
}

/// Both linear proofs verify, each on its own fresh transcript, about the
/// commitments the proof carries.
pub open spec fn bulletproof_linear_ok(
    stmt: PolyWellFormedStatement,
    proof: PolyWellFormedBulletproof,
    pp: PolyWellFormedBulletproofParams,
) -> bool {
    &&& linear_proof_verifies(
        seq![op_init("poly-well-formedness-bp-coeff".spec_bytes())],
        proof.coeff_proof.0@,
        compressed_multiple(modl(proof.coeff_cf@ + proof.coeff_output@)),
        encs(pp.coeff_g_vec@),
        compressed_multiple(1),
        compressed_multiple(h_dlog()),
        padded(bp_mus(stmt, proof.degree as int), pp.coeff_m as int),
    )
    &&& linear_proof_verifies(
        seq![op_init("poly-well-formedness-bp-blind".spec_bytes())],
        proof.blind_proof.0@,
        compressed_multiple(modl(proof.blind_cf@ + proof.blind_output@)),
        encs(pp.blind_g_vec@),
        compressed_multiple(h_dlog()),
        compressed_multiple(1),
        padded(bp_lambdas(stmt).drop_first(), pp.blind_m as int),
    )
}

/// Neither linear proof of the bundle has a round with an identity `L` or
/// `R` or a zero challenge, on the transcripts the verifier uses.
pub open spec fn bulletproof_nondegenerate(
    stmt: PolyWellFormedStatement,
    proof: PolyWellFormedBulletproof,
    pp: PolyWellFormedBulletproofParams,
) -> bool {
    &&& linear_proof_nondegenerate(
        seq![op_init("poly-well-formedness-bp-coeff".spec_bytes())],
        proof.coeff_proof.0@,
        compressed_multiple(modl(proof.coeff_cf@ + proof.coeff_output@)),
        encs(pp.coeff_g_vec@),
        compressed_multiple(1),
        compressed_multiple(h_dlog()),
        padded(bp_mus(stmt, proof.degree as int), pp.coeff_m as int),
    )
    &&& linear_proof_nondegenerate(
        seq![op_init("poly-well-formedness-bp-blind".spec_bytes())],
        proof.blind_proof.0@,
        compressed_multiple(modl(proof.blind_cf@ + proof.blind_output@)),
        encs(pp.blind_g_vec@),
        compressed_multiple(h_dlog()),
        compressed_multiple(1),
        padded(bp_lambdas(stmt).drop_first(), pp.blind_m as int),
    )
}

/// The bundle's linear proofs verify, unless one of them is degenerate or
/// the generator vectors have `2^32` entries or more.
pub open spec fn bulletproof_linear_made(
    stmt: PolyWellFormedStatement,
    proof: PolyWellFormedBulletproof,
    pp: PolyWellFormedBulletproofParams,
) -> bool {
    pp.coeff_m < 0x1_0000_0000 && pp.blind_m < 0x1_0000_0000 && bulletproof_nondegenerate(stmt, proof, pp)
        ==> bulletproof_linear_ok(stmt, proof, pp)
}

/// Why a proof was refused.
#[derive(Clone, Copy, Debug, PartialEq, Eq)]
pub enum BulletproofRejection {
    CommitmentLengthMismatch,
    BadCoeffParams,
    BadBlindParams,
    DegreeTooLarge,
    TooManyBlindings,
    PublicCouplingFailed,
    CoeffProofFailed,
    BlindProofFailed,
}

/// A power of two, tested by halving.
fn is_power_of_two(m: usize) -> (r: bool)
    ensures
        r == exists|k: nat| m == #[trigger] pow2(k),
{
    if m == 0 {
        proof {
            assert forall|k: nat| m != #[trigger] pow2(k) by {
                vstd::arithmetic::power2::lemma_pow2_pos(k);
            }
        }
        return false;
    }
    let mut x: usize = m;
    let ghost mut k: nat = 0;
    proof {
        vstd::arithmetic::power2::lemma2_to64();
    }
    while x % 2 == 0
        invariant
            x >= 1,
            m == x * pow2(k),
        decreases x,
    {
        proof {
            vstd::arithmetic::power2::lemma_pow2_unfold(k + 1);
            assert(m == (x / 2) * pow2(k + 1)) by (nonlinear_arith)
                requires
                    m == x * pow2(k),
                    x % 2 == 0,
                    pow2(k + 1) == 2 * pow2(k),
            ;
        }
        x = x / 2;
        proof {
            k = k + 1;
        }
    }
    if x == 1 {
        return true;
    }
    proof {
        assert forall|j: nat| m != #[trigger] pow2(j) by {
            lemma_odd_times_pow2(x as int, k, j);
        }
    }
    false
}

/// An odd number above one times a power of two is no power of two.
proof fn lemma_odd_times_pow2(x: int, k: nat, j: nat)
    requires
        x > 1,
        x % 2 == 1,
    ensures
        x * pow2(k) != pow2(j),
    decreases k,
{
    vstd::arithmetic::power2::lemma_pow2_pos(k);
    vstd::arithmetic::power2::lemma_pow2_pos(j);
    if k == 0 {
        vstd::arithmetic::power2::lemma2_to64();
        if j > 0 {
            vstd::arithmetic::power2::lemma_pow2_unfold(j);
        } else {
            assert(x * 1 != 1);
        }
    } else {
        vstd::arithmetic::power2::lemma_pow2_unfold(k);
        if j == 0 {
            vstd::arithmetic::power2::lemma2_to64();
            assert(x * pow2(k) >= 2) by (nonlinear_arith)
                requires
                    x > 1,
                    pow2(k) >= 1,
            ;
        } else {
            vstd::arithmetic::power2::lemma_pow2_unfold(j);
            lemma_odd_times_pow2(x, (k - 1) as nat, (j - 1) as nat);
            assert(x * pow2(k) == 2 * (x * pow2((k - 1) as nat))) by (nonlinear_arith)
                requires
                    pow2(k) == 2 * pow2((k - 1) as nat),
            ;
        }
    }
}

/// The first check, in the verifier's order, that a proof fails; `None`
/// when it passes them all.
pub open spec fn bulletproof_rejection(
    stmt: PolyWellFormedStatement,
    proof: PolyWellFormedBulletproof,
    pp: PolyWellFormedBulletproofParams,
) -> Option<BulletproofRejection> {
    let n = stmt.x_points@.len();
    let lambdas = bp_lambdas(stmt);
    if stmt.commitments@.len() != n {
        Some(BulletproofRejection::CommitmentLengthMismatch)
    } else if !(pp.coeff_g_vec@.len() == pp.coeff_m && exists|k: nat| pp.coeff_m == #[trigger] pow2(k)) {
        Some(BulletproofRejection::BadCoeffParams)
    } else if !(pp.blind_g_vec@.len() == pp.blind_m && exists|k: nat| pp.blind_m == #[trigger] pow2(k)) {
        Some(BulletproofRejection::BadBlindParams)
    } else if proof.degree >= pp.coeff_m {
        Some(BulletproofRejection::DegreeTooLarge)
    } else if n > pp.blind_m || n >= usize::MAX {
        Some(BulletproofRejection::TooManyBlindings)
    } else if modl(proof.coeff_output@ + proof.blind_output@) != modl(
        lin_comb(lambdas, seq![stmt.f0_commitment@] + com_dlogs(stmt.commitments@)),
    ) {
        Some(BulletproofRejection::PublicCouplingFailed)
    } else if !linear_proof_verifies(
        seq![op_init("poly-well-formedness-bp-coeff".spec_bytes())],
        proof.coeff_proof.0@,
        compressed_multiple(modl(proof.coeff_cf@ + proof.coeff_output@)),
        encs(pp.coeff_g_vec@),
        compressed_multiple(1),
        compressed_multiple(h_dlog()),
        padded(bp_mus(stmt, proof.degree as int), pp.coeff_m as int),
    ) {
        Some(BulletproofRejection::CoeffProofFailed)
    } else if !linear_proof_verifies(
        seq![op_init("poly-well-formedness-bp-blind".spec_bytes())],
        proof.blind_proof.0@,
        compressed_multiple(modl(proof.blind_cf@ + proof.blind_output@)),
        encs(pp.blind_g_vec@),
        compressed_multiple(h_dlog()),
        compressed_multiple(1),
        padded(lambdas.drop_first(), pp.blind_m as int),
    ) {
        Some(BulletproofRejection::BlindProofFailed)
    } else {
        None
    }
}

/// Checks a proof and says which part failed: the first check, in order,
/// that it fails.
pub fn verify_bulletproof_debug(
    statement: &PolyWellFormedStatement,
    proof: &PolyWellFormedBulletproof,
    pp: &PolyWellFormedBulletproofParams,
) -> (r: Result<(), BulletproofRejection>)
    ensures
        r is Ok <==> bulletproof_valid(*statement, *proof, *pp),
        r == (match bulletproof_rejection(*statement, *proof, *pp) {
            Some(e) => Err(e),
            None => Ok(()),
        }),
{
    let n = statement.x_points.len();
    if statement.commitments.len() != n {
        return Err(BulletproofRejection::CommitmentLengthMismatch);
    }
    if pp.coeff_g_vec.len() != pp.coeff_m || !is_power_of_two(pp.coeff_m) {
        return Err(BulletproofRejection::BadCoeffParams);
    }
    if pp.blind_g_vec.len() != pp.blind_m || !is_power_of_two(pp.blind_m) {
        return Err(BulletproofRejection::BadBlindParams);
    }
    if proof.degree >= pp.coeff_m {
        return Err(BulletproofRejection::DegreeTooLarge);
    }
    if n > pp.blind_m || n == usize::MAX {
        return Err(BulletproofRejection::TooManyBlindings);
    }
    let mut transcript = new_transcript("poly-well-formedness-bp");
    append_statement_to_transcript(&mut transcript, statement);
    let lambdas = derive_lambdas(&mut transcript, n);
    let mus = compute_mus(statement.x_points.as_slice(), lambdas.as_slice(), proof.degree);
    let mut lambda_tail: Vec<Scalar> = Vec::new();
    let mut i: usize = 1;
    while i < lambdas.len()
        invariant
            1 <= i <= lambdas@.len(),
            lambda_tail@ == lambdas@.subrange(1, i as int),
        decreases lambdas@.len() - i,
    {
        lambda_tail.push(lambdas[i]);
        i = i + 1;
    }
    let p_star = combine_publics(&statement.f0_commitment, statement.commitments.as_slice(), lambdas.as_slice());
    let outputs = proof.coeff_output.add(&proof.blind_output);
    if !outputs.equals(&p_star) {
        return Err(BulletproofRejection::PublicCouplingFailed);
    }
    let coeff_b = pad_vec(mus.as_slice(), pp.coeff_m);
    let coeff_c = proof.coeff_cf.add(&proof.coeff_output).to_bytes();
    let coeff_gens = point_encodings(pp.coeff_g_vec.as_slice());
    let g = Point::generator();
    let h = Point::pedersen_h();
    let mut coeff_transcript = new_transcript("poly-well-formedness-bp-coeff");
    proof {
        assert(svals(mus@) =~= bp_mus(*statement, proof.degree as int));
    }
    if !bp_linear_verify(proof.coeff_proof.0.as_slice(), &mut coeff_transcript, &coeff_c, coeff_gens.as_slice(), &g, &h, coeff_b.as_slice()) {
        return Err(BulletproofRejection::CoeffProofFailed);
    }
    let blind_b = pad_vec(lambda_tail.as_slice(), pp.blind_m);
    let blind_c = proof.blind_cf.add(&proof.blind_output).to_bytes();
    let blind_gens = point_encodings(pp.blind_g_vec.as_slice());
    let mut blind_transcript = new_transcript("poly-well-formedness-bp-blind");
    proof {
        assert(svals(lambda_tail@) =~= bp_lambdas(*statement).drop_first());
    }
    if !bp_linear_verify(proof.blind_proof.0.as_slice(), &mut blind_transcript, &blind_c, blind_gens.as_slice(), &h, &g, blind_b.as_slice()) {
        return Err(BulletproofRejection::BlindProofFailed);
    }
    Ok(())
}

/// Checks a proof.
pub fn verify_bulletproof(
    statement: &PolyWellFormedStatement,
    proof: &PolyWellFormedBulletproof,
    pp: &PolyWellFormedBulletproofParams,
) -> (r: bool)
    ensures
        r == bulletproof_valid(*statement, *proof, *pp),
{
    verify_bulletproof_debug(statement, proof, pp).is_ok()
}

/// What an honestly made proof satisfies: its degree, and the two outputs
/// `g^{<a, mu>}` and `h^{<omega, lambda_tail>}`.
pub open spec fn bulletproof_honest(
    stmt: PolyWellFormedStatement,
    wit: PolyWellFormedWitness,
    proof: PolyWellFormedBulletproof,
) -> bool {
    let degree = wit.coeffs@.len() - 1;
    &&& proof.degree == degree
    &&& proof.coeff_output@ == modl(lin_comb(svals(wit.coeffs@), bp_mus(stmt, degree)))
    &&& proof.blind_output@ == modl(
        h_dlog() * modl(lin_comb(svals(wit.blindings@), bp_lambdas(stmt).drop_first())),
    )
}

/// Each linear proof of the bundle was made on a commitment that its secret
/// vector opens: the coefficient proof on `coeff_cf + coeff_output`, which is
/// `<a, G> + [r]H + [<a, mu>]g` for the padded coefficients `a` and some `r`,
/// and the blinding proof on `blind_cf + blind_output`, which is
/// `<w, G'> + [r']g + [<w, lambda_tail>]H` for the padded blindings `w`.
pub open spec fn bulletproof_openings(
    stmt: PolyWellFormedStatement,
    wit: PolyWellFormedWitness,
    proof: PolyWellFormedBulletproof,
    pp: PolyWellFormedBulletproofParams,
) -> bool {
    let degree = wit.coeffs@.len() - 1;
    &&& exists|r: int|
        #![trigger linear_opening(compressed_multiple(modl(proof.coeff_cf@ + proof.coeff_output@)), r, padded(svals(wit.coeffs@), pp.coeff_m as int), padded(bp_mus(stmt, degree), pp.coeff_m as int), encs(pp.coeff_g_vec@), 1, h_dlog())]
        linear_opening(
            compressed_multiple(modl(proof.coeff_cf@ + proof.coeff_output@)),
            r,
            padded(svals(wit.coeffs@), pp.coeff_m as int),
            padded(bp_mus(stmt, degree), pp.coeff_m as int),
            encs(pp.coeff_g_vec@),
            1,
            h_dlog(),
        )
    &&& exists|r: int|
        #![trigger linear_opening(compressed_multiple(modl(proof.blind_cf@ + proof.blind_output@)), r, padded(svals(wit.blindings@), pp.blind_m as int), padded(bp_lambdas(stmt).drop_first(), pp.blind_m as int), encs(pp.blind_g_vec@), h_dlog(), 1)]
        linear_opening(
            compressed_multiple(modl(proof.blind_cf@ + proof.blind_output@)),
            r,
            padded(svals(wit.blindings@), pp.blind_m as int),
            padded(bp_lambdas(stmt).drop_first(), pp.blind_m as int),
            encs(pp.blind_g_vec@),
            h_dlog(),
            1,
        )
}

/// Zeros appended to both vectors add nothing to their inner product.
proof fn lemma_lin_comb_padded(a: Seq<int>, b: Seq<int>, m: int)
    requires
        a.len() == b.len(),
        a.len() <= m,
    ensures
        lin_comb(padded(a, m), padded(b, m)) == lin_comb(a, b),
    decreases m - a.len(),
{
    if m == a.len() {
        assert(padded(a, m) =~= a);
        assert(padded(b, m) =~= b);
    } else {
        lemma_lin_comb_padded(a, b, m - 1);
        assert(padded(a, m).drop_last() =~= padded(a, m - 1));
        assert(padded(b, m).drop_last() =~= padded(b, m - 1));
        assert(padded(a, m).last() * padded(b, m).last() == 0) by (nonlinear_arith)
            requires
                padded(a, m).last() == 0,
        ;
    }
}

/// The commitment the coefficient proof is about, in the exponent.
proof fn lemma_coeff_opening(hr: int, l: int, y: int)
    ensures
        modl(modl(modl(hr) + l) + modl(modl(y))) == modl(l + hr + 1 * y),
{
    crate::arith::lemma_modl_add(hr, l);
    crate::arith::lemma_modl_idem(y);
    crate::arith::lemma_modl_add(hr + l, y);
    crate::arith::lemma_modl_add(modl(hr + l), modl(y));
    crate::arith::lemma_modl_add(modl(hr + l), y);
    assert(hr + l + y == l + hr + 1 * y);
}

/// The commitment the blinding proof is about, in the exponent.
proof fn lemma_blind_opening(gr: int, l: int, h: int, y: int)
    ensures
        modl(modl(modl(gr) + l) + modl(h * modl(y))) == modl(l + gr + h * y),
{
    crate::arith::lemma_modl_add(gr, l);
    crate::arith::lemma_modl_mul(h, y);
    crate::arith::lemma_modl_add(modl(gr + l), modl(h * y));
    crate::arith::lemma_modl_add(modl(gr + l), h * y);
    crate::arith::lemma_modl_add(gr + l, h * y);
    assert(gr + l + h * y == l + gr + h * y);
}

/// Proves well-formedness with two linear proofs.
#[verifier::rlimit(50)]
#[verifier::spinoff_prover]
pub fn prove_bulletproof(
    statement: &PolyWellFormedStatement,
    witness: &PolyWellFormedWitness,
    pp: &PolyWellFormedBulletproofParams,
) -> (r: PolyWellFormedBulletproof)
    requires
        statement.commitments@.len() == statement.x_points@.len(),
        witness.blindings@.len() == statement.x_points@.len(),
        witness.coeffs@.len() >= 1,
        statement.x_points@.len() < usize::MAX,
        pp.coeff_m >= witness.coeffs@.len(),
        pp.blind_m >= witness.blindings@.len(),
        params_ok(*pp),
    ensures
        bulletproof_honest(*statement, *witness, r),
        bulletproof_openings(*statement, *witness, r, *pp),
        bulletproof_linear_made(*statement, r, *pp),
{
    let n = statement.x_points.len();
    let degree = witness.coeffs.len() - 1;
    let mut transcript = new_transcript("poly-well-formedness-bp");
    append_statement_to_transcript(&mut transcript, statement);
    let lambdas = derive_lambdas(&mut transcript, n);
    let mus = compute_mus(statement.x_points.as_slice(), lambdas.as_slice(), degree);
    let mut lambda_tail: Vec<Scalar> = Vec::new();
    let mut i: usize = 1;
    while i < lambdas.len()
        invariant
            1 <= i <= lambdas@.len(),
            lambda_tail@ == lambdas@.subrange(1, i as int),
        decreases lambdas@.len() - i,
    {
        lambda_tail.push(lambdas[i]);
        i = i + 1;
    }
    proof {
        assert(svals(mus@) =~= bp_mus(*statement, degree as int));
        assert(svals(lambda_tail@) =~= bp_lambdas(*statement).drop_first());
    }
    let g = Point::generator();
    let h = Point::pedersen_h();
    let coeff_x = pad_vec(witness.coeffs.as_slice(), pp.coeff_m);
    assert(svals(coeff_x@).len() == coeff_x@.len());
    let coeff_b = pad_vec(mus.as_slice(), pp.coeff_m);
    assert(svals(coeff_b@).len() == coeff_b@.len());
    let coeff_y = inner_product(witness.coeffs.as_slice(), mus.as_slice());
    let coeff_output = Point::basepoint_mul(&coeff_y);
    let coeff_r = Scalar::random();
    let coeff_hr = h.mul(&coeff_r);
    let coeff_cf = fold_generators(coeff_hr, pp.coeff_g_vec.as_slice(), coeff_x.as_slice());
    let coeff_sum = coeff_cf.add(&coeff_output);
    let coeff_c = coeff_sum.to_bytes();
    let coeff_gens = point_encodings(pp.coeff_g_vec.as_slice());
    let mut coeff_transcript = new_transcript("poly-well-formedness-bp-coeff");
    let coeff_proof = bp_linear_create(&mut coeff_transcript, &coeff_c, &coeff_r, coeff_x.as_slice(), coeff_b.as_slice(), coeff_gens.as_slice(), &g, &h);
    let blind_x = pad_vec(witness.blindings.as_slice(), pp.blind_m);
    assert(svals(blind_x@).len() == blind_x@.len());
    let blind_b = pad_vec(lambda_tail.as_slice(), pp.blind_m);
    assert(svals(blind_b@).len() == blind_b@.len());
    let blind_y = inner_product(witness.blindings.as_slice(), lambda_tail.as_slice());
    let blind_output = h.mul(&blind_y);
    let blind_r = Scalar::random();
    let blind_gr = g.mul(&blind_r);
    let blind_cf = fold_generators(blind_gr, pp.blind_g_vec.as_slice(), blind_x.as_slice());
    let blind_sum = blind_cf.add(&blind_output);
    let blind_c = blind_sum.to_bytes();
    let blind_gens = point_encodings(pp.blind_g_vec.as_slice());
    let mut blind_transcript = new_transcript("poly-well-formedness-bp-blind");
    let blind_proof = bp_linear_create(&mut blind_transcript, &blind_c, &blind_r, blind_x.as_slice(), blind_b.as_slice(), blind_gens.as_slice(), &h, &g);
    proof {
        assert(coeff_gens@.map_values(|g: [u8; 32]| g@).len() == coeff_gens@.len());
        assert(blind_gens@.map_values(|g: [u8; 32]| g@).len() == blind_gens@.len());
        assert(coeff_gens@.len() == pp.coeff_m);
        assert(blind_gens@.len() == pp.blind_m);
        assert(mus@.len() == svals(mus@).len());
        assert(lambda_tail@.len() == n);
        assert(coeff_b@.len() == pp.coeff_m);
        assert(coeff_x@.len() == pp.coeff_m);
        assert(blind_b@.len() == pp.blind_m);
        assert(blind_x@.len() == pp.blind_m);
        assert(coeff_proof is Some);
        assert(blind_proof is Some);
        assert(coeff_output@ == modl(lin_comb(svals(witness.coeffs@), bp_mus(*statement, degree as int)))) by {
            crate::arith::lemma_modl_bound(coeff_y@);
        }
        assert(blind_output@ == modl(h_dlog() * modl(lin_comb(svals(witness.blindings@), bp_lambdas(*statement).drop_first()))));
        // the coefficient proof is about its commitment
        vstd::arithmetic::power2::lemma_pow2_pos(choose|k: nat| pp.coeff_m == pow2(k));
        vstd::arithmetic::power2::lemma_pow2_pos(choose|k: nat| pp.blind_m == pow2(k));
        let cks = dlogs(pp.coeff_g_vec@);
        let cgens = coeff_gens@.map_values(|g: [u8; 32]| g@);
        assert(cgens == encs(pp.coeff_g_vec@));
        assert forall|i: int| 0 <= i < cks.len() implies 0 <= #[trigger] cks[i] < group_order() && compressed_multiple(cks[i]) == cgens[i] by {
            assert(encs(pp.coeff_g_vec@)[i] == pp.coeff_g_vec@[i].enc());
        }
        lemma_lin_comb_padded(svals(witness.coeffs@), svals(mus@), pp.coeff_m as int);
        assert(svals(coeff_x@) == padded(svals(witness.coeffs@), pp.coeff_m as int));
        assert(svals(coeff_b@) == padded(svals(mus@), pp.coeff_m as int));
        let cl = lin_comb(cks, svals(coeff_x@));
        lemma_coeff_opening(h_dlog() * coeff_r@, cl, lin_comb(svals(witness.coeffs@), svals(mus@)));
        assert(coeff_c@ == compressed_multiple(modl(cl + h_dlog() * coeff_r@ + 1 * lin_comb(svals(coeff_x@), svals(coeff_b@)))));
        assert(linear_opening(coeff_c@, coeff_r@, svals(coeff_x@), svals(coeff_b@), cgens, g@, h@));
        // the blinding proof is about its commitment
        let bks = dlogs(pp.blind_g_vec@);
        let bgens = blind_gens@.map_values(|g: [u8; 32]| g@);
        assert(bgens == encs(pp.blind_g_vec@));
        assert forall|i: int| 0 <= i < bks.len() implies 0 <= #[trigger] bks[i] < group_order() && compressed_multiple(bks[i]) == bgens[i] by {
            assert(encs(pp.blind_g_vec@)[i] == pp.blind_g_vec@[i].enc());
        }
        lemma_lin_comb_padded(svals(witness.blindings@), svals(lambda_tail@), pp.blind_m as int);
        assert(svals(blind_x@) == padded(svals(witness.blindings@), pp.blind_m as int));
        assert(svals(blind_b@) == padded(svals(lambda_tail@), pp.blind_m as int));
        let bl = lin_comb(bks, svals(blind_x@));
        lemma_blind_opening(1 * blind_r@, bl, h_dlog(), lin_comb(svals(witness.blindings@), svals(lambda_tail@)));
        assert(blind_c@ == compressed_multiple(modl(bl + 1 * blind_r@ + h_dlog() * lin_comb(svals(blind_x@), svals(blind_b@)))));
        assert(linear_opening(blind_c@, blind_r@, svals(blind_x@), svals(blind_b@), bgens, h@, g@));
        assert(coeff_c@ == compressed_multiple(modl(coeff_cf@ + coeff_output@)));
        assert(blind_c@ == compressed_multiple(modl(blind_cf@ + blind_output@)));
    }
    match (coeff_proof, blind_proof) {
        (Some(cp), Some(bp)) => {
            let out = PolyWellFormedBulletproof {
                degree,
                coeff_cf,
                coeff_output,
                coeff_proof: SerializableLinearProof(cp),
                blind_cf,
                blind_output,
                blind_proof: SerializableLinearProof(bp),
            };
            proof {
                let dg = witness.coeffs@.len() - 1;
                assert(degree as int == dg);
                assert(linear_opening(
                    compressed_multiple(modl(out.coeff_cf@ + out.coeff_output@)),
                    coeff_r@,
                    padded(svals(witness.coeffs@), pp.coeff_m as int),
                    padded(bp_mus(*statement, dg), pp.coeff_m as int),
                    encs(pp.coeff_g_vec@),
                    1,
                    h_dlog(),
                ));
                assert(linear_opening(
                    compressed_multiple(modl(out.blind_cf@ + out.blind_output@)),
                    blind_r@,
                    padded(svals(witness.blindings@), pp.blind_m as int),
                    padded(bp_lambdas(*statement).drop_first(), pp.blind_m as int),
                    encs(pp.blind_g_vec@),
                    h_dlog(),
                    1,
                ));
                assert(bulletproof_openings(*statement, *witness, out, *pp));
                assert(bulletproof_linear_made(*statement, out, *pp));
            }
            out
        },
        _ => {
            proof {
                assert(false);
            }
            PolyWellFormedBulletproof {
                degree,
                coeff_cf,
                coeff_output,
                coeff_proof: SerializableLinearProof(Vec::new()),
                blind_cf,
                blind_output,
                blind_proof: SerializableLinearProof(Vec::new()),
            }
        },
    }
}

/// The linear-proof system as a [`PolyProofScheme`].
#[derive(Clone, Copy, Debug)]
pub struct BulletproofPolyProof;

impl PolyProofScheme for BulletproofPolyProof {
    type Proof = PolyWellFormedBulletproof;
    type Params = PolyWellFormedBulletproofParams;

    open spec fn prove_requires(params: &PolyWellFormedBulletproofParams, statement: &PolyWellFormedStatement, witness: &PolyWellFormedWitness) -> bool {
        &&& statement.commitments@.len() == statement.x_points@.len()
        &&& witness.blindings@.len() == statement.x_points@.len()
        &&& witness.coeffs@.len() >= 1
        &&& statement.x_points@.len() < usize::MAX
        &&& params.coeff_m >= witness.coeffs@.len()
        &&& params.blind_m >= witness.blindings@.len()
        &&& params_ok(*params)
    }

    open spec fn proof_honest(params: &PolyWellFormedBulletproofParams, statement: &PolyWellFormedStatement, witness: &PolyWellFormedWitness, proof: &PolyWellFormedBulletproof) -> bool {
        bulletproof_honest(*statement, *witness, *proof) && bulletproof_openings(*statement, *witness, *proof, *params)
            && bulletproof_linear_made(*statement, *proof, *params)
    }

    open spec fn proof_valid(params: &PolyWellFormedBulletproofParams, statement: &PolyWellFormedStatement, proof: &PolyWellFormedBulletproof) -> bool {
        bulletproof_valid(*statement, *proof, *params)
    }

    /// The prover always makes a proof.
    open spec fn prove_fails(params: &PolyWellFormedBulletproofParams, statement: &PolyWellFormedStatement, witness: &PolyWellFormedWitness) -> bool {
        false
    }

    fn prove(params: &PolyWellFormedBulletproofParams, statement: &PolyWellFormedStatement, witness: &PolyWellFormedWitness) -> (r: Option<PolyWellFormedBulletproof>) {
        Some(prove_bulletproof(statement, witness, params))
    }

    fn verify(params: &PolyWellFormedBulletproofParams, statement: &PolyWellFormedStatement, proof: &PolyWellFormedBulletproof) -> (r: bool) {
        verify_bulletproof(statement, proof, params)
    }
}

} // verus!
