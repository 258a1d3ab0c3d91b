//! The Fischlin well-formedness proof with the first-round commitments left
//! off the wire: the verifier rebuilds them from the challenge and the
//! responses. Same relation, same prover and same hashes; only the encoding
//! differs.

use crate::arith::{lemma_modl_add, lemma_modl_bound, lemma_modl_mul, lemma_modl_sub, modl};
use crate::bytes::sha512_spec;
use crate::codec::points_bytes;
use crate::group::{g_mul_scalar, h_dlog, h_mul_scalar, svals, Point};
use crate::one_round_proofs::polyproof_fischlin::{
    attempt_can_fail,
    challenge_space_size, common_h, common_h_input, fischlin_honest,
    fischlin_score_u32_from_prefix, prove_fischlin_with_params, rounds_bytes, score_has_b_leading_zero_bits,
    score_hasher_prefix, score_of, score_prefix_bytes, vec_views, FischlinProofParams,
    PolyWellFormedFischlinProof,
};
use crate::one_round_proofs::polyproof_schnorr::{PolyWellFormedStatement, PolyWellFormedWitness};
use crate::one_round_proofs::PolyProofScheme;
use crate::poly::{eval_poly_at, poly_sum};
use crate::scalar::Scalar;
use vstd::arithmetic::power2::pow2;
use vstd::prelude::*;

verus! {

/// A round without its first-round commitments.
#[derive(Clone)]
pub struct CompactRound {
    pub e: u16,
    pub z_coeffs: Vec<Scalar>,
    pub z_blindings: Vec<Scalar>,
}

/// A Fischlin proof in the compact encoding.
#[derive(Clone)]
pub struct CompactFischlinProof {
    pub rounds: Vec<CompactRound>,
}

/// `[e]P` by double-and-add over the bits of the small challenge `e`.
fn mul_small(p: &Point, e: u16) -> (r: Point)
    ensures
        r@ == modl(p@ * e),
{
    if e == 0 {
        assert(p@ * 0 == 0);
        return Point::identity();
    }
    proof {
        vstd::std_specs::bits::axiom_u16_leading_zeros(e);
    }
    let lz = e.leading_zeros();
    let top: u16 = (16 - lz) as u16;
    proof {
        assert(e >> top == 0);
    }
    let mut acc = Point::identity();
    let mut i: u16 = top;
    while i > 0
        invariant
            i <= 16,
            acc@ == modl(p@ * (e >> i)),
        decreases i,
    {
        let j: u16 = i - 1;
        let ghost prev = acc@;
        let ghost hi = e >> i;
        acc = acc.add(&acc);
        let bit = (e >> j) & 1;
        if bit == 1 {
            acc = acc.add(p);
        }
        proof {
            assert(e >> j == 2 * (e >> i) + ((e >> j) & 1)) by (bit_vector)
                requires
                    j < 16,
                    i == j + 1,
            ;
            assert(bit == 0 || bit == 1) by (bit_vector)
                requires
                    bit == (e >> j) & 1,
            ;
            lemma_modl_add(p@ * hi, prev);
            lemma_modl_add(p@ * hi + p@ * hi, 0);
            crate::arith::lemma_modl_add_cong(prev, prev, p@ * hi, p@ * hi);
            assert(p@ * (e >> j) == p@ * hi + p@ * hi + p@ * bit) by (nonlinear_arith)
                requires
                    e >> j == 2 * hi + bit,
            ;
            if bit == 1 {
                crate::arith::lemma_modl_add_cong(modl(prev + prev), p@, p@ * hi + p@ * hi, p@);
                crate::arith::lemma_modl_idem(prev + prev);
                crate::arith::lemma_modl_idem(p@);
                lemma_modl_bound(p@);
            } else {
                assert(p@ * bit == 0);
            }
        }
        i = j;
    }
    proof {
        assert(e >> 0u16 == e) by (bit_vector);
    }
    acc
}

/// The rebuilt first-round commitment `j` of a round: `T_0 = g^{z_0} f0^{-e}`
/// and `T_j = g^{z(x_j)} h^{z_b,j} com_j^{-e}`.
pub open spec fn rebuilt_dlog(stmt: PolyWellFormedStatement, round: CompactRound, j: int) -> int {
    if j == 0 {
        modl(round.z_coeffs@[0]@ - stmt.f0_commitment@ * round.e)
    } else {
        modl(
            poly_sum(svals(round.z_coeffs@), stmt.x_points@[j - 1]@) + round.z_blindings@[j - 1]@ * h_dlog()
                - stmt.commitments@[j - 1]@ * round.e,
        )
    }
}

/// `ts` holds a round's rebuilt first-round commitments.
pub open spec fn rebuilds(stmt: PolyWellFormedStatement, round: CompactRound, ts: Seq<Point>) -> bool {
    &&& ts.len() == stmt.x_points@.len() + 1
    &&& forall|j: int| 0 <= j < ts.len() ==> (#[trigger] ts[j])@ == rebuilt_dlog(stmt, round, j)
}

/// Whether a round has the shape the statement asks for.
pub open spec fn compact_shape(stmt: PolyWellFormedStatement, round: CompactRound, t_bits: int) -> bool {
    &&& round.z_blindings@.len() == stmt.x_points@.len()
    &&& round.z_coeffs@.len() == stmt.degree + 1
    &&& round.e < pow2(t_bits as nat)
}

/// Every round's score passes under the common hash of `ts`.
pub open spec fn compact_scores_ok(
    stmt: PolyWellFormedStatement,
    rs: Seq<CompactRound>,
    ts: Seq<Seq<Point>>,
    b: int,
) -> bool {
    let ch = sha512_spec(common_h_input(stmt, ts));
    forall|i: int|
        0 <= i < rs.len() ==> score_of(
            score_prefix_bytes(ch, i, ts[i]),
            (#[trigger] rs[i]).e,
            rs[i].z_coeffs@,
            rs[i].z_blindings@,
        ) < pow2((32 - b) as nat)
}

/// What the compact verifier accepts: sound parameters, the right shapes,
/// and every round's score passes once the commitments are rebuilt.
pub open spec fn compact_valid(
    stmt: PolyWellFormedStatement,
    proof: CompactFischlinProof,
    rho: int,
    b: int,
    t_bits: int,
) -> bool {
    let rs = proof.rounds@;
    &&& rho > 0 && 1 <= b <= 31 && 1 <= t_bits <= 15 && b <= t_bits
    &&& stmt.commitments@.len() == stmt.x_points@.len()
    &&& stmt.x_points@.len() < usize::MAX
    &&& rs.len() == rho
    &&& forall|i: int| 0 <= i < rs.len() ==> compact_shape(stmt, #[trigger] rs[i], t_bits)
    &&& forall|ts: Seq<Seq<Point>>|
        ts.len() == rs.len() && (forall|i: int| 0 <= i < rs.len() ==> rebuilds(stmt, rs[i], #[trigger] ts[i]))
            ==> #[trigger] compact_scores_ok(stmt, rs, ts, b)
}

proof fn lemma_rebuild_step(zx: int, zb: int, c: int, e: int, a: int, bb: int, cc: int)
    requires
        a == modl(zx),
        bb == modl(h_dlog() * zb),
        cc == modl(c * e),
    ensures
        modl(modl(a + bb) - cc) == modl(zx + zb * h_dlog() - c * e),
{
    lemma_modl_sub(a + bb, c * e);
    lemma_modl_sub(modl(a + bb), c * e);
    lemma_modl_add(zx, bb);
    lemma_modl_add(zx, h_dlog() * zb);
    lemma_modl_add(a + bb, 0);
    crate::arith::lemma_modl_add_cong(a + bb, -(c * e), zx + h_dlog() * zb, -(c * e));
    crate::arith::lemma_modl_idem(a + bb);
    assert(h_dlog() * zb == zb * h_dlog()) by (nonlinear_arith);
}

/// The commitments the verbose encoding would have carried, rebuilt from
/// what is on the wire.
fn recompute_round(statement: &PolyWellFormedStatement, round: &CompactRound) -> (r: Vec<Point>)
    requires
        statement.commitments@.len() == statement.x_points@.len(),
        statement.x_points@.len() < usize::MAX,
        round.z_blindings@.len() == statement.x_points@.len(),
        round.z_coeffs@.len() == statement.degree + 1,
    ensures
        rebuilds(*statement, *round, r@),
{
    let n = statement.x_points.len();
    let mut t: Vec<Point> = Vec::new();
    let first = g_mul_scalar(round.z_coeffs[0]);
    let sub0 = mul_small(&statement.f0_commitment, round.e);
    t.push(first.sub(&sub0));
    proof {
        lemma_modl_sub(round.z_coeffs@[0]@, sub0@);
        lemma_modl_sub(first@, statement.f0_commitment@ * round.e);
        lemma_modl_sub(round.z_coeffs@[0]@, statement.f0_commitment@ * round.e);
    }
    let mut j: usize = 0;
    while j < n
        invariant
            j <= n,
            n == statement.x_points@.len(),
            statement.commitments@.len() == n,
            round.z_blindings@.len() == n,
            round.z_coeffs@.len() == statement.degree + 1,
            t@.len() == j + 1,
            forall|q: int| 0 <= q <= j ==> (#[trigger] t@[q])@ == rebuilt_dlog(*statement, *round, q),
        decreases n - j,
    {
        let zx = eval_poly_at(round.z_coeffs.as_slice(), statement.x_points[j]);
        let gz = g_mul_scalar(zx);
        let hz = h_mul_scalar(round.z_blindings[j]);
        let ce = mul_small(statement.commitments[j].point(), round.e);
        let tj = gz.add(&hz).sub(&ce);
        proof {
            let x = statement.x_points@[j as int]@;
            let ps = poly_sum(svals(round.z_coeffs@), x);
            crate::arith::lemma_modl_idem(ps);
            lemma_rebuild_step(
                ps,
                round.z_blindings@[j as int]@,
                statement.commitments@[j as int]@,
                round.e as int,
                gz@,
                hz@,
                ce@,
            );
        }
        t.push(tj);
        j = j + 1;
    }
    t
}

/// Proves with the Fischlin prover and drops the first-round commitments.
pub fn prove_compact(
    statement: &PolyWellFormedStatement,
    witness: &PolyWellFormedWitness,
    rho: usize,
    b: usize,
    t_bits: usize,
) -> (r: Option<CompactFischlinProof>)
    requires
        rho > 0,
        1 <= b <= 31,
        1 <= t_bits <= 15,
        b <= t_bits,
        statement.commitments@.len() == statement.x_points@.len(),
        witness.blindings@.len() == statement.x_points@.len(),
        witness.coeffs@.len() == statement.degree + 1,
    ensures
        r matches Some(c) ==> compacts_honest(*statement, *witness, c, rho as int, b as int, t_bits as int),
        r is None ==> attempt_can_fail(*statement, *witness, rho as int, b as int, pow2(t_bits as nat) as int),
{
    let full = match prove_fischlin_with_params(statement, witness, rho, b, t_bits) {
        Some(p) => p,
        None => {
            return None;
        },
    };
    let mut rounds: Vec<CompactRound> = Vec::new();
    let mut i: usize = 0;
    while i < full.rounds.len()
        invariant
            i <= full.rounds@.len(),
            fischlin_honest(*statement, *witness, full, rho as int, b as int, t_bits as int),
            rounds@.len() == i,
            forall|q: int| 0 <= q < i ==> #[trigger] round_compacts(full.rounds@[q], rounds@[q]),
        decreases full.rounds@.len() - i,
    {
        let r = &full.rounds[i];
        rounds.push(CompactRound { e: r.e, z_coeffs: copy_scalars(&r.z_coeffs), z_blindings: copy_scalars(&r.z_blindings) });
        i = i + 1;
    }
    let compact = CompactFischlinProof { rounds };
    assert(compact_of(full, compact));
    assert(compacts_honest(*statement, *witness, compact, rho as int, b as int, t_bits as int));
    Some(compact)
}

/// `c` is an honest Fischlin proof without its first-round commitments.
pub open spec fn compacts_honest(
    stmt: PolyWellFormedStatement,
    wit: PolyWellFormedWitness,
    c: CompactFischlinProof,
    rho: int,
    b: int,
    t_bits: int,
) -> bool {
    exists|p: PolyWellFormedFischlinProof| #[trigger] compact_of(p, c) && fischlin_honest(stmt, wit, p, rho, b, t_bits)
}

/// A round kept without its first-round commitments.
pub open spec fn round_compacts(full: crate::one_round_proofs::polyproof_fischlin::PolyWellFormedFischlinRound, c: CompactRound) -> bool {
    &&& c.e == full.e
    &&& c.z_coeffs@ == full.z_coeffs@
    &&& c.z_blindings@ == full.z_blindings@
}

/// `c` is `p` without the first-round commitments.
pub open spec fn compact_of(p: PolyWellFormedFischlinProof, c: CompactFischlinProof) -> bool {
    &&& c.rounds@.len() == p.rounds@.len()
    &&& forall|i: int| 0 <= i < c.rounds@.len() ==> #[trigger] round_compacts(p.rounds@[i], c.rounds@[i])
}

fn copy_scalars(v: &Vec<Scalar>) -> (r: Vec<Scalar>)
    ensures
        r@ == v@,
{
    let mut out: Vec<Scalar> = Vec::new();
    let mut i: usize = 0;
    while i < v.len()
        invariant
            i <= v@.len(),
            out@ == v@.subrange(0, i as int),
        decreases v@.len() - i,
    {
        out.push(v[i]);
        i = i + 1;
        assert(out@ =~= v@.subrange(0, i as int));
    }
    assert(v@.subrange(0, v@.len() as int) =~= v@);
    out
}

/// Rebuilding is the check: the commitments are what the equations define,
/// so a wrong response yields other elements and a score that fails.
pub fn verify_compact(
    statement: &PolyWellFormedStatement,
    proof: &CompactFischlinProof,
    rho: usize,
    b: usize,
    t_bits: usize,
) -> (r: bool)
    ensures
        r == compact_valid(*statement, *proof, rho as int, b as int, t_bits as int),
{
    let n = statement.x_points.len();
    if rho == 0 || b == 0 || b > 31 || t_bits == 0 || t_bits > 15 || b > t_bits {
        return false;
    }
    if statement.commitments.len() != n || proof.rounds.len() != rho {
        return false;
    }
    let cs = challenge_space_size(t_bits);
    let ghost rs = proof.rounds@;
    let mut i: usize = 0;
    while i < proof.rounds.len()
        invariant
            i <= rs.len(),
            rs == proof.rounds@,
            n == statement.x_points@.len(),
            cs == pow2(t_bits as nat),
            forall|q: int| 0 <= q < i ==> compact_shape(*statement, #[trigger] rs[q], t_bits as int),
        decreases rs.len() - i,
    {
        let round = &proof.rounds[i];
        let zb_len = round.z_blindings.len();
        let zc_len = round.z_coeffs.len();
        if zb_len != n || statement.degree == usize::MAX || zc_len != statement.degree + 1 || (round.e as u32) >= cs {
            assert(!compact_shape(*statement, rs[i as int], t_bits as int));
            return false;
        }
        i = i + 1;
    }
    if n == usize::MAX {
        return false;
    }
    let mut rebuilt: Vec<Vec<Point>> = Vec::new();
    let mut i: usize = 0;
    while i < proof.rounds.len()
        invariant
            i <= rs.len(),
            rs == proof.rounds@,
            n == statement.x_points@.len(),
            n < usize::MAX,
            statement.commitments@.len() == n,
            forall|q: int| 0 <= q < rs.len() ==> compact_shape(*statement, #[trigger] rs[q], t_bits as int),
            rebuilt@.len() == i,
            forall|q: int| 0 <= q < i ==> rebuilds(*statement, rs[q], #[trigger] rebuilt@[q]@),
        decreases rs.len() - i,
    {
        rebuilt.push(recompute_round(statement, &proof.rounds[i]));
        i = i + 1;
    }
    let ghost ts = vec_views(rebuilt@);
    assert(forall|q: int| 0 <= q < rs.len() ==> rebuilds(*statement, rs[q], #[trigger] ts[q]));
    let ch = common_h(statement, rebuilt.as_slice());
    let mut i: usize = 0;
    while i < proof.rounds.len()
        invariant
            i <= rs.len(),
            rs == proof.rounds@,
            rebuilt@.len() == rs.len(),
            ts == vec_views(rebuilt@),
            forall|q: int| 0 <= q < rs.len() ==> rebuilds(*statement, rs[q], #[trigger] ts[q]),
            1 <= b <= 31,
            ch@ == sha512_spec(common_h_input(*statement, ts)),
            forall|q: int|
                0 <= q < i ==> score_of(
                    score_prefix_bytes(ch@, q, ts[q]),
                    (#[trigger] rs[q]).e,
                    rs[q].z_coeffs@,
                    rs[q].z_blindings@,
                ) < pow2((32 - b) as nat),
        decreases rs.len() - i,
    {
        let round = &proof.rounds[i];
        let prefix = score_hasher_prefix(&ch, i, rebuilt[i].as_slice());
        let score = fischlin_score_u32_from_prefix(
            prefix.as_slice(),
            round.e,
            round.z_coeffs.as_slice(),
            round.z_blindings.as_slice(),
        );
        if !score_has_b_leading_zero_bits(score, b) {
            proof {
                assert(!compact_scores_ok(*statement, rs, ts, b as int));
            }
            return false;
        }
        i = i + 1;
    }
    proof {
        assert(compact_scores_ok(*statement, rs, ts, b as int));
        assert forall|us: Seq<Seq<Point>>|
            us.len() == rs.len() && (forall|q: int| 0 <= q < rs.len() ==> rebuilds(*statement, rs[q], #[trigger] us[q]))
                implies #[trigger] compact_scores_ok(*statement, rs, us, b as int) by {
            lemma_rebuilt_same_bytes(*statement, rs, ts, us, b as int);
        }
    }
    true
}

/// Two sequences of elements with the same discrete logarithms.
pub open spec fn same_elements(a: Seq<Point>, b: Seq<Point>) -> bool {
    a.len() == b.len() && forall|j: int| 0 <= j < a.len() ==> (#[trigger] a[j])@ == b[j]@
}

proof fn lemma_points_bytes_same(a: Seq<Point>, b: Seq<Point>)
    requires
        same_elements(a, b),
    ensures
        points_bytes(a) == points_bytes(b),
    decreases a.len(),
{
    if a.len() > 0 {
        assert(a.last()@ == b.last()@);
        lemma_points_bytes_same(a.drop_last(), b.drop_last());
    }
}

proof fn lemma_rounds_bytes_same(ts: Seq<Seq<Point>>, us: Seq<Seq<Point>>)
    requires
        ts.len() == us.len(),
        forall|i: int| 0 <= i < ts.len() ==> same_elements(#[trigger] ts[i], us[i]),
    ensures
        rounds_bytes(ts) == rounds_bytes(us),
    decreases ts.len(),
{
    if ts.len() > 0 {
        let k = ts.len() - 1;
        assert(same_elements(ts[k], us[k]));
        lemma_points_bytes_same(ts.last(), us.last());
        lemma_rounds_bytes_same(ts.drop_last(), us.drop_last());
    }
}

/// The scores depend on the rebuilt elements only through their values.
proof fn lemma_rebuilt_same_bytes(
    stmt: PolyWellFormedStatement,
    rs: Seq<CompactRound>,
    ts: Seq<Seq<Point>>,
    us: Seq<Seq<Point>>,
    b: int,
)
    requires
        ts.len() == rs.len(),
        us.len() == rs.len(),
        forall|i: int| 0 <= i < rs.len() ==> rebuilds(stmt, rs[i], #[trigger] ts[i]),
        forall|i: int| 0 <= i < rs.len() ==> rebuilds(stmt, rs[i], #[trigger] us[i]),
        compact_scores_ok(stmt, rs, ts, b),
    ensures
        compact_scores_ok(stmt, rs, us, b),
{
    assert forall|i: int| 0 <= i < ts.len() implies same_elements(#[trigger] ts[i], us[i]) by {
        assert(rebuilds(stmt, rs[i], ts[i]));
        assert(rebuilds(stmt, rs[i], us[i]));
    }
    lemma_rounds_bytes_same(ts, us);
    assert(common_h_input(stmt, ts) == common_h_input(stmt, us));
    let ch = sha512_spec(common_h_input(stmt, ts));
    assert forall|i: int| 0 <= i < rs.len() implies score_of(
        score_prefix_bytes(ch, i, us[i]),
        (#[trigger] rs[i]).e,
        rs[i].z_coeffs@,
        rs[i].z_blindings@,
    ) < pow2((32 - b) as nat) by {
        assert(same_elements(ts[i], us[i]));
        lemma_points_bytes_same(ts[i], us[i]);
        assert(score_prefix_bytes(ch, i, us[i]) == score_prefix_bytes(ch, i, ts[i]));
    }
}

/// [`prove_compact`] and [`verify_compact`] as a [`PolyProofScheme`].
#[derive(Clone, Copy, Debug)]
pub struct CompactFischlinPolyProof;

impl PolyProofScheme for CompactFischlinPolyProof {
    type Proof = CompactFischlinProof;
    type Params = FischlinProofParams;

    open spec fn prove_requires(params: &FischlinProofParams, statement: &PolyWellFormedStatement, witness: &PolyWellFormedWitness) -> bool {
        &&& params.rho > 0
        &&& 1 <= params.b <= 31
        &&& 1 <= params.t_bits <= 15
        &&& params.b <= params.t_bits
        &&& statement.commitments@.len() == statement.x_points@.len()
        &&& witness.blindings@.len() == statement.x_points@.len()
        &&& witness.coeffs@.len() == statement.degree + 1
    }

    open spec fn proof_honest(params: &FischlinProofParams, statement: &PolyWellFormedStatement, witness: &PolyWellFormedWitness, proof: &CompactFischlinProof) -> bool {
        compacts_honest(*statement, *witness, *proof, params.rho as int, params.b as int, params.t_bits as int)
    }

    open spec fn proof_valid(params: &FischlinProofParams, statement: &PolyWellFormedStatement, proof: &CompactFischlinProof) -> bool {
        compact_valid(*statement, *proof, params.rho as int, params.b as int, params.t_bits as int)
    }

    open spec fn prove_fails(params: &FischlinProofParams, statement: &PolyWellFormedStatement, witness: &PolyWellFormedWitness) -> bool {
        attempt_can_fail(*statement, *witness, params.rho as int, params.b as int, pow2(params.t_bits as nat) as int)
    }

    fn prove(params: &FischlinProofParams, statement: &PolyWellFormedStatement, witness: &PolyWellFormedWitness) -> (r: Option<CompactFischlinProof>) {
        prove_compact(statement, witness, params.rho, params.b, params.t_bits)
    }

    fn verify(params: &FischlinProofParams, statement: &PolyWellFormedStatement, proof: &CompactFischlinProof) -> (r: bool) {
        verify_compact(statement, proof, params.rho, params.b, params.t_bits)
    }
}

} // verus!
