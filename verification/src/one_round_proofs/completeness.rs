//! Honest well-formedness proofs verify: when every Sigma round satisfies its
//! equations, the rank-1 folded check holds for any fold weights. The
//! verifiers' verdicts depend on a statement's values only.

use crate::arith::{
    lemma_modl_add, lemma_modl_add_cong, lemma_modl_bound, lemma_modl_idem, lemma_modl_mul, lemma_modl_mul_cong,
    lemma_modl_neg_cong, modl,
};
use crate::bytes::sha512_spec;
use crate::group::{dlogs, h_dlog, lin_comb, svals};
use crate::one_round_proofs::polyproof_fischlin::{
    common_h_input, fischlin_deltas, fischlin_gammas, fischlin_honest, fischlin_rounds_data, fischlin_valid,
    fischlin_weight_history, round_honest, round_opens, round_shape, round_ts, statement_hash_bytes,
    PolyWellFormedFischlinProof,
};
use crate::one_round_proofs::polyproof_schnorr::{
    poly_relation, schnorr_challenge, schnorr_deltas, schnorr_history, schnorr_honest, schnorr_valid,
    schnorr_weight_history, PolyWellFormedProof, PolyWellFormedStatement, PolyWellFormedWitness,
};
use crate::one_round_proofs::helpers::{batched_statement_ops, mu_value, weighted_power_sum};
use crate::one_round_proofs::polyproof_bulletproof::{
    bp_lambdas, bp_mus, bulletproof_honest, bulletproof_linear_ok, bulletproof_valid, params_ok, PolyWellFormedBulletproof,
    PolyWellFormedBulletproofParams,
};
use crate::pedersen::com_dlog;
use crate::scalar::Scalar;
use crate::transcript::{indexed_history, op_init};
use crate::one_round_proofs::utils::{
    bfold, com_dlogs, efold, g_acc, h_acc, rank1_check, rank1_points, rank1_scalars, rank1_shape, s_points,
    s_scalars, statement_ops, t_points, t_scalars, zfold, zhat, RoundData,
};
use crate::poly::poly_eval;
use crate::two_round::{lemma_poly_sum_is_pow_sum, pow_sum};
use crate::two_round::completeness::lemma_pow_sum_zero;
use crate::two_round_proofs::completeness::{dot, lemma_indexed_values_len, lemma_lin_comb_append};
use vstd::arithmetic::power::pow;
use vstd::prelude::*;
use vstd::string::StringSliceAdditionalSpecFns;

verus! {

/// Evaluation is linear: `c = a + s b` coefficient-wise gives `c(x) = a(x) + s b(x)`.
proof fn lemma_pow_sum_axpy(a: Seq<int>, b: Seq<int>, c: Seq<int>, s: int, x: int, m: int)
    requires
        0 <= m,
        forall|k: int| 0 <= k < m ==> #[trigger] c[k] == modl(a[k] + modl(s * b[k])),
    ensures
        modl(pow_sum(c, x, m)) == modl(pow_sum(a, x, m) + s * pow_sum(b, x, m)),
    decreases m,
{
    if m == 0 {
        assert(s * 0 == 0) by (nonlinear_arith);
    } else {
        lemma_pow_sum_axpy(a, b, c, s, x, m - 1);
        let xp = pow(x, (m - 1) as nat);
        let pa = pow_sum(a, x, m - 1);
        let pb = pow_sum(b, x, m - 1);
        let pc = pow_sum(c, x, m - 1);
        let ak = a[m - 1];
        let bk = b[m - 1];
        assert(c[m - 1] == modl(ak + modl(s * bk)));
        lemma_modl_add(ak, s * bk);
        lemma_modl_idem(ak + s * bk);
        lemma_modl_mul_cong(c[m - 1], xp, ak + s * bk, xp);
        lemma_modl_add_cong(pc, c[m - 1] * xp, pa + s * pb, (ak + s * bk) * xp);
        assert((pa + s * pb) + (ak + s * bk) * xp == (pa + ak * xp) + s * (pb + bk * xp)) by (nonlinear_arith);
    }
}

/// Linearity of polynomial evaluation modulo the group order.
pub proof fn lemma_poly_eval_axpy(a: Seq<int>, b: Seq<int>, c: Seq<int>, s: int, y: int)
    requires
        a.len() == c.len(),
        b.len() == c.len(),
        forall|k: int| 0 <= k < c.len() ==> #[trigger] c[k] == modl(a[k] + modl(s * b[k])),
    ensures
        poly_eval(c, y) == modl(poly_eval(a, y) + s * poly_eval(b, y)),
{
    let m = c.len() as int;
    lemma_poly_sum_is_pow_sum(a, y);
    lemma_poly_sum_is_pow_sum(b, y);
    lemma_poly_sum_is_pow_sum(c, y);
    lemma_pow_sum_axpy(a, b, c, s, y, m);
    let pa = pow_sum(a, y, m);
    let pb = pow_sum(b, y, m);
    lemma_modl_idem(pa);
    lemma_modl_idem(pb);
    lemma_modl_mul_cong(s, modl(pb), s, pb);
    lemma_modl_add_cong(modl(pa), s * modl(pb), pa, s * pb);
}

/// A polynomial with zero coefficients evaluates to zero.
proof fn lemma_poly_eval_zero(c: Seq<int>, y: int)
    requires
        forall|k: int| 0 <= k < c.len() ==> #[trigger] c[k] == 0,
    ensures
        poly_eval(c, y) == 0,
{
    lemma_poly_sum_is_pow_sum(c, y);
    lemma_pow_sum_zero(c, y, c.len() as int);
    lemma_modl_bound(0);
}

/// Four congruences give the congruence of `a + b - c - d`.
proof fn lemma_modl_cong4(a: int, b: int, c: int, d: int, a2: int, b2: int, c2: int, d2: int)
    requires
        modl(a) == modl(a2),
        modl(b) == modl(b2),
        modl(c) == modl(c2),
        modl(d) == modl(d2),
    ensures
        modl(a + b - c - d) == modl(a2 + b2 - c2 - d2),
{
    lemma_modl_add_cong(a, b, a2, b2);
    lemma_modl_neg_cong(c, c2);
    lemma_modl_add_cong(a + b, -c, a2 + b2, -c2);
    lemma_modl_neg_cong(d, d2);
    lemma_modl_add_cong(a + b - c, -d, a2 + b2 - c2, -d2);
}

/// The commitment `T`, the statement element `C`, the evaluated response `P`
/// and the blinding response `Z` of an honest equation cancel.
proof fn lemma_equation_cancels(t: int, cc: int, p: int, z: int, pr: int, pa: int, rb: int, w: int, e: int)
    requires
        modl(t) == modl(pr + rb * h_dlog()),
        modl(cc) == modl(pa + w * h_dlog()),
        modl(p) == modl(pr + e * pa),
        modl(z) == modl(rb + e * w),
    ensures
        modl(t + e * cc - p - h_dlog() * z) == 0,
{
    let h = h_dlog();
    lemma_modl_mul_cong(e, cc, e, pa + w * h);
    lemma_modl_mul_cong(h, z, h, rb + e * w);
    lemma_modl_cong4(t, e * cc, p, h * z, pr + rb * h, e * (pa + w * h), pr + e * pa, h * (rb + e * w));
    assert((pr + rb * h) + e * (pa + w * h) - (pr + e * pa) - h * (rb + e * w) == 0) by (nonlinear_arith);
    lemma_modl_bound(0);
}

/// Statement element `i` of the folded check: `f0`, then the commitments.
pub open spec fn spoint(stmt: PolyWellFormedStatement, i: int) -> int {
    if i == 0 {
        stmt.f0_commitment@
    } else {
        stmt.commitments@[i - 1]@
    }
}

/// Equation `j` of a round, unreduced: `T_0 + e f0 - z(0)` for `j = 0`, and
/// `T_j + e C_j - z(x_j) - h zb_j` for the commitments.
pub open spec fn residual(stmt: PolyWellFormedStatement, rd: RoundData, j: int) -> int {
    if j == 0 {
        rd.0[0] + rd.1 * spoint(stmt, 0) - rd.2[0]
    } else {
        rd.0[j] + rd.1 * spoint(stmt, j) - poly_eval(rd.2, svals(stmt.x_points@)[j - 1]) - h_dlog() * rd.3[j - 1]
    }
}

/// Every Sigma equation of the round holds in the exponent.
pub open spec fn round_holds(stmt: PolyWellFormedStatement, rd: RoundData) -> bool {
    forall|j: int| 0 <= j <= stmt.x_points@.len() ==> modl(#[trigger] residual(stmt, rd, j)) == 0
}

/// `sum_{i < j} d_i residual_i`.
pub open spec fn rsum(stmt: PolyWellFormedStatement, rd: RoundData, d: Seq<int>, j: int) -> int
    decreases j,
{
    if j <= 0 {
        0
    } else {
        rsum(stmt, rd, d, j - 1) + d[j - 1] * residual(stmt, rd, j - 1)
    }
}

/// `d_0 z_0 + sum_{1 <= i <= j} d_i z(x_{i-1})`.
spec fn vsum(x: Seq<int>, z: Seq<int>, d: Seq<int>, j: int) -> int
    decreases j,
{
    if j <= 0 {
        d[0] * z[0]
    } else {
        vsum(x, z, d, j - 1) + d[j] * poly_eval(z, x[j - 1])
    }
}

/// `sum_{1 <= i <= j} d_i b_{i-1}`.
spec fn bsum(b: Seq<int>, d: Seq<int>, j: int) -> int
    decreases j,
{
    if j <= 0 {
        0
    } else {
        bsum(b, d, j - 1) + d[j] * b[j - 1]
    }
}

/// `sum_{i < j} d_i S_i` over the statement elements.
spec fn ssum(stmt: PolyWellFormedStatement, d: Seq<int>, j: int) -> int
    decreases j,
{
    if j <= 0 {
        0
    } else {
        ssum(stmt, d, j - 1) + d[j - 1] * spoint(stmt, j - 1)
    }
}

/// The weighted equations of one round, regrouped by kind of term.
proof fn lemma_regroup(stmt: PolyWellFormedStatement, rd: RoundData, d: Seq<int>, j: int)
    requires
        0 <= j <= stmt.x_points@.len(),
    ensures
        dot(d, rd.0, j + 1) + rd.1 * ssum(stmt, d, j + 1) - vsum(svals(stmt.x_points@), rd.2, d, j) - h_dlog()
            * bsum(rd.3, d, j) == rsum(stmt, rd, d, j + 1),
    decreases j,
{
    let e = rd.1;
    let h = h_dlog();
    let x = svals(stmt.x_points@);
    let dj = d[j];
    let tj = rd.0[j];
    let sj = spoint(stmt, j);
    if j == 0 {
        assert(e * (0 + dj * sj) == dj * (e * sj)) by (nonlinear_arith);
        assert(h * 0 == 0) by (nonlinear_arith);
        assert(dj * (tj + e * sj - rd.2[0]) == dj * tj + dj * (e * sj) - dj * rd.2[0]) by (nonlinear_arith);
        assert(dot(d, rd.0, 0) == 0);
        assert(ssum(stmt, d, 0) == 0);
        assert(rsum(stmt, rd, d, 0) == 0);
        assert(dot(d, rd.0, 1) == dj * tj);
        assert(ssum(stmt, d, 1) == dj * sj);
        assert(rsum(stmt, rd, d, 1) == dj * (tj + e * sj - rd.2[0]));
    } else {
        lemma_regroup(stmt, rd, d, j - 1);
        let dt = dot(d, rd.0, j);
        let ss = ssum(stmt, d, j);
        let vs = vsum(x, rd.2, d, j - 1);
        let bs = bsum(rd.3, d, j - 1);
        let pj = poly_eval(rd.2, x[j - 1]);
        let bj = rd.3[j - 1];
        assert(e * (ss + dj * sj) == e * ss + e * (dj * sj)) by (nonlinear_arith);
        assert(h * (bs + dj * bj) == h * bs + h * (dj * bj)) by (nonlinear_arith);
        assert(e * (dj * sj) == dj * (e * sj)) by (nonlinear_arith);
        assert(h * (dj * bj) == dj * (h * bj)) by (nonlinear_arith);
        assert(dj * (tj + e * sj - pj - h * bj) == dj * tj + dj * (e * sj) - dj * pj - dj * (h * bj)) by (nonlinear_arith);
        assert(dot(d, rd.0, j + 1) == dt + dj * tj);
        assert(ssum(stmt, d, j + 1) == ss + dj * sj);
        assert(vsum(x, rd.2, d, j) == vs + dj * pj);
        assert(bsum(rd.3, d, j) == bs + dj * bj);
        assert(residual(stmt, rd, j) == tj + e * sj - pj - h * bj);
        assert(rsum(stmt, rd, d, j + 1) == rsum(stmt, rd, d, j) + dj * (tj + e * sj - pj - h * bj));
    }
}

/// A round whose equations hold has weighted sum zero.
proof fn lemma_rsum_zero(stmt: PolyWellFormedStatement, rd: RoundData, d: Seq<int>, j: int)
    requires
        0 <= j <= stmt.x_points@.len() + 1,
        round_holds(stmt, rd),
    ensures
        modl(rsum(stmt, rd, d, j)) == 0,
    decreases j,
{
    lemma_modl_bound(0);
    if j > 0 {
        lemma_rsum_zero(stmt, rd, d, j - 1);
        let r = residual(stmt, rd, j - 1);
        assert(modl(r) == 0);
        lemma_modl_mul_cong(d[j - 1], r, d[j - 1], 0);
        assert(d[j - 1] * 0 == 0) by (nonlinear_arith);
        lemma_modl_add_cong(rsum(stmt, rd, d, j - 1), d[j - 1] * r, 0, 0);
    }
}

/// The folded response polynomial after the first `r` rounds.
spec fn zseq(rounds: Seq<RoundData>, g: Seq<int>, deg: int, r: int) -> Seq<int> {
    Seq::new((deg + 1) as nat, |k: int| zfold(rounds, g, k, r))
}

/// The folded blinding responses after the first `r` rounds.
spec fn bseq(rounds: Seq<RoundData>, g: Seq<int>, n: int, r: int) -> Seq<int> {
    Seq::new(n as nat, |k: int| bfold(rounds, g, k, r))
}

/// `sum_{i < r} g_i * sum_j d_j T_{i,j}`.
spec fn tt(rounds: Seq<RoundData>, g: Seq<int>, d: Seq<int>, r: int) -> int
    decreases r,
{
    if r <= 0 {
        0
    } else {
        tt(rounds, g, d, r - 1) + g[r - 1] * dot(d, rounds[r - 1].0, d.len() as int)
    }
}

/// The exponent of the folded check over the first `r` rounds, unreduced.
spec fn fsum(stmt: PolyWellFormedStatement, rounds: Seq<RoundData>, g: Seq<int>, d: Seq<int>, r: int) -> int {
    let n = stmt.x_points@.len() as int;
    tt(rounds, g, d, r) + efold(rounds, g, r) * ssum(stmt, d, n + 1) - vsum(
        svals(stmt.x_points@),
        zseq(rounds, g, stmt.degree as int, r),
        d,
        n,
    ) - h_dlog() * bsum(bseq(rounds, g, n, r), d, n)
}

/// One more weighted term keeps a congruence `acc = prev + g z`.
proof fn lemma_axpy_step(acc: int, prev: int, az: int, v: int, vp: int, vz: int, dj: int, g: int)
    requires
        modl(acc) == modl(prev + g * az),
        modl(v) == modl(vp + g * vz),
    ensures
        modl(acc + dj * v) == modl((prev + dj * vp) + g * (az + dj * vz)),
{
    lemma_modl_mul_cong(dj, v, dj, vp + g * vz);
    lemma_modl_add_cong(acc, dj * v, prev + g * az, dj * (vp + g * vz));
    assert(dj * (vp + g * vz) == dj * vp + g * (dj * vz)) by (nonlinear_arith);
    assert(g * (az + dj * vz) == g * az + g * (dj * vz)) by (nonlinear_arith);
}

/// `modl(modl(a) + modl(b))` is `modl(a + b)`.
proof fn lemma_modl_add2(a: int, b: int)
    ensures
        modl(modl(a + modl(b))) == modl(a + b),
{
    lemma_modl_add(a, b);
    lemma_modl_idem(a + b);
}

/// Folding one more round into the response polynomial is linear in the
/// evaluated sum.
proof fn lemma_vsum_fold(stmt: PolyWellFormedStatement, rounds: Seq<RoundData>, g: Seq<int>, d: Seq<int>, r: int, j: int)
    requires
        1 <= r <= rounds.len(),
        0 <= j <= stmt.x_points@.len(),
        rounds[r - 1].2.len() == stmt.degree + 1,
    ensures
        ({
            let x = svals(stmt.x_points@);
            let deg = stmt.degree as int;
            modl(vsum(x, zseq(rounds, g, deg, r), d, j)) == modl(vsum(x, zseq(rounds, g, deg, r - 1), d, j) + g[r - 1]
                * vsum(x, rounds[r - 1].2, d, j))
        }),
    decreases j,
{
    let x = svals(stmt.x_points@);
    let deg = stmt.degree as int;
    let z = rounds[r - 1].2;
    let gr = g[r - 1];
    let zc = zseq(rounds, g, deg, r);
    let zp = zseq(rounds, g, deg, r - 1);
    assert forall|k: int| 0 <= k < zc.len() implies #[trigger] zc[k] == modl(zp[k] + modl(gr * z[k])) by {}
    if j == 0 {
        lemma_modl_add2(zp[0], gr * z[0]);
        assert(gr * 0 == 0) by (nonlinear_arith);
        lemma_axpy_step(0, 0, 0, zc[0], zp[0], z[0], d[0], gr);
    } else {
        lemma_vsum_fold(stmt, rounds, g, d, r, j - 1);
        let y = x[j - 1];
        lemma_poly_eval_axpy(zp, z, zc, gr, y);
        lemma_axpy_step(
            vsum(x, zc, d, j - 1),
            vsum(x, zp, d, j - 1),
            vsum(x, z, d, j - 1),
            poly_eval(zc, y),
            poly_eval(zp, y),
            poly_eval(z, y),
            d[j],
            gr,
        );
    }
}

/// Folding one more round into the blinding responses is linear in the
/// weighted sum.
proof fn lemma_bsum_fold(rounds: Seq<RoundData>, g: Seq<int>, d: Seq<int>, n: int, r: int, j: int)
    requires
        1 <= r <= rounds.len(),
        0 <= j <= n,
        rounds[r - 1].3.len() == n,
    ensures
        modl(bsum(bseq(rounds, g, n, r), d, j)) == modl(bsum(bseq(rounds, g, n, r - 1), d, j) + g[r - 1] * bsum(
            rounds[r - 1].3,
            d,
            j,
        )),
    decreases j,
{
    let gr = g[r - 1];
    let b = rounds[r - 1].3;
    if j == 0 {
        assert(gr * 0 == 0) by (nonlinear_arith);
    } else {
        lemma_bsum_fold(rounds, g, d, n, r, j - 1);
        let bc = bseq(rounds, g, n, r);
        let bp = bseq(rounds, g, n, r - 1);
        assert(bc[j - 1] == modl(bp[j - 1] + modl(gr * b[j - 1])));
        lemma_modl_add2(bp[j - 1], gr * b[j - 1]);
        lemma_axpy_step(
            bsum(bc, d, j - 1),
            bsum(bp, d, j - 1),
            bsum(b, d, j - 1),
            bc[j - 1],
            bp[j - 1],
            b[j - 1],
            d[j],
            gr,
        );
    }
}

/// Sums of zero terms vanish.
proof fn lemma_sums_zero(x: Seq<int>, z: Seq<int>, b: Seq<int>, d: Seq<int>, j: int)
    requires
        0 <= j <= x.len(),
        j <= b.len(),
        forall|k: int| 0 <= k < z.len() ==> #[trigger] z[k] == 0,
        forall|k: int| 0 <= k < b.len() ==> #[trigger] b[k] == 0,
        z.len() >= 1,
    ensures
        vsum(x, z, d, j) == 0,
        bsum(b, d, j) == 0,
    decreases j,
{
    if j == 0 {
        assert(z[0] == 0);
        assert(d[0] * 0 == 0) by (nonlinear_arith);
    } else {
        lemma_sums_zero(x, z, b, d, j - 1);
        lemma_poly_eval_zero(z, x[j - 1]);
        assert(b[j - 1] == 0);
        assert(d[j] * 0 == 0) by (nonlinear_arith);
    }
}

/// Adding a round adds its weighted equations to the folded exponent.
#[verifier::rlimit(40)]
proof fn lemma_fsum_step(stmt: PolyWellFormedStatement, rounds: Seq<RoundData>, g: Seq<int>, d: Seq<int>, r: int)
    requires
        1 <= r <= rounds.len(),
        rank1_shape(stmt, rounds, d.len() as int, g.len() as int),
    ensures
        modl(fsum(stmt, rounds, g, d, r)) == modl(fsum(stmt, rounds, g, d, r - 1) + g[r - 1] * rsum(
            stmt,
            rounds[r - 1],
            d,
            stmt.x_points@.len() + 1int,
        )),
{
    let n = stmt.x_points@.len() as int;
    let x = svals(stmt.x_points@);
    let deg = stmt.degree as int;
    let rd = rounds[r - 1];
    let gr = g[r - 1];
    let h = h_dlog();
    let ss = ssum(stmt, d, n + 1);
    let t0 = tt(rounds, g, d, r - 1);
    let dt = dot(d, rd.0, n + 1);
    let ec = efold(rounds, g, r);
    let ep = efold(rounds, g, r - 1);
    let vc = vsum(x, zseq(rounds, g, deg, r), d, n);
    let vp = vsum(x, zseq(rounds, g, deg, r - 1), d, n);
    let vz = vsum(x, rd.2, d, n);
    let bc = bsum(bseq(rounds, g, n, r), d, n);
    let bp = bsum(bseq(rounds, g, n, r - 1), d, n);
    let bz = bsum(rd.3, d, n);
    assert(rd == rounds[r - 1]);
    lemma_vsum_fold(stmt, rounds, g, d, r, n);
    lemma_bsum_fold(rounds, g, d, n, r, n);
    lemma_regroup(stmt, rd, d, n);
    // the folded challenge
    lemma_modl_add2(ep, gr * rd.1);
    lemma_modl_mul_cong(ec, ss, ep + gr * rd.1, ss);
    lemma_modl_mul_cong(h, bc, h, bp + gr * bz);
    lemma_modl_cong4(
        t0 + gr * dt,
        ec * ss,
        vc,
        h * bc,
        t0 + gr * dt,
        (ep + gr * rd.1) * ss,
        vp + gr * vz,
        h * (bp + gr * bz),
    );
    assert((ep + gr * rd.1) * ss == ep * ss + gr * (rd.1 * ss)) by (nonlinear_arith);
    assert(h * (bp + gr * bz) == h * bp + gr * (h * bz)) by (nonlinear_arith);
    assert(gr * (dt + rd.1 * ss - vz - h * bz) == gr * dt + gr * (rd.1 * ss) - gr * vz - gr * (h * bz)) by (nonlinear_arith);
}

/// When every round's equations hold, the folded exponent vanishes.
proof fn lemma_fsum_zero(stmt: PolyWellFormedStatement, rounds: Seq<RoundData>, g: Seq<int>, d: Seq<int>, r: int)
    requires
        0 <= r <= rounds.len(),
        rank1_shape(stmt, rounds, d.len() as int, g.len() as int),
        forall|i: int| 0 <= i < rounds.len() ==> round_holds(stmt, #[trigger] rounds[i]),
    ensures
        modl(fsum(stmt, rounds, g, d, r)) == 0,
    decreases r,
{
    let n = stmt.x_points@.len() as int;
    lemma_modl_bound(0);
    if r == 0 {
        let zs = zseq(rounds, g, stmt.degree as int, 0);
        let bs = bseq(rounds, g, n, 0);
        assert forall|k: int| 0 <= k < zs.len() implies #[trigger] zs[k] == 0 by {}
        assert forall|k: int| 0 <= k < bs.len() implies #[trigger] bs[k] == 0 by {}
        lemma_sums_zero(svals(stmt.x_points@), zs, bs, d, n);
        assert(0 * ssum(stmt, d, n + 1) == 0) by (nonlinear_arith);
        assert(h_dlog() * 0 == 0) by (nonlinear_arith);
    } else {
        lemma_fsum_zero(stmt, rounds, g, d, r - 1);
        lemma_fsum_step(stmt, rounds, g, d, r);
        let rs = rsum(stmt, rounds[r - 1], d, n + 1);
        lemma_rsum_zero(stmt, rounds[r - 1], d, n + 1);
        lemma_modl_mul_cong(g[r - 1], rs, g[r - 1], 0);
        assert(g[r - 1] * 0 == 0) by (nonlinear_arith);
        lemma_modl_add_cong(fsum(stmt, rounds, g, d, r - 1), g[r - 1] * rs, 0, 0);
    }
}

/// One more term of a linear combination.
pub(crate) proof fn lemma_lin_comb_push(s: Seq<int>, k: Seq<int>, a: int, b: int)
    ensures
        lin_comb(s.push(a), k.push(b)) == lin_comb(s, k) + a * b,
{
    assert(s.push(a).drop_last() =~= s);
    assert(k.push(b).drop_last() =~= k);
}

/// The first-round commitments, weighted by `gamma_r * delta_j`, sum to the
/// rounds' weighted sums.
proof fn lemma_t_part(rounds: Seq<RoundData>, g: Seq<int>, d: Seq<int>, r: int, j: int)
    requires
        0 <= r,
        0 <= j <= d.len(),
    ensures
        t_scalars(g, d, r, j).len() == t_points(rounds, d.len() as int, r, j).len(),
        modl(lin_comb(t_scalars(g, d, r, j), t_points(rounds, d.len() as int, r, j))) == modl(tt(rounds, g, d, r)
            + g[r] * dot(d, rounds[r].0, j)),
    decreases r, j,
{
    let nd = d.len() as int;
    lemma_modl_bound(0);
    if j == 0 {
        assert(g[r] * 0 == 0) by (nonlinear_arith);
        if r > 0 {
            lemma_t_part(rounds, g, d, r - 1, nd);
        }
    } else {
        lemma_t_part(rounds, g, d, r, j - 1);
        let ts = t_scalars(g, d, r, j - 1);
        let tp = t_points(rounds, nd, r, j - 1);
        let a = modl(g[r] * d[j - 1]);
        let b = rounds[r].0[j - 1];
        lemma_lin_comb_push(ts, tp, a, b);
        lemma_modl_mul(g[r] * d[j - 1], b);
        lemma_modl_add_cong(
            lin_comb(ts, tp),
            a * b,
            tt(rounds, g, d, r) + g[r] * dot(d, rounds[r].0, j - 1),
            g[r] * d[j - 1] * b,
        );
        assert(g[r] * (dot(d, rounds[r].0, j - 1) + d[j - 1] * b) == g[r] * dot(d, rounds[r].0, j - 1) + g[r] * d[j - 1]
            * b) by (nonlinear_arith);
    }
}

/// The statement elements, weighted by `delta_j * e`, sum to `e` times their
/// weighted sum.
proof fn lemma_s_part(stmt: PolyWellFormedStatement, d: Seq<int>, e: int, j: int)
    requires
        0 <= j <= stmt.x_points@.len() + 1,
        stmt.commitments@.len() == stmt.x_points@.len(),
    ensures
        s_scalars(d, e, j).len() == j,
        s_points(stmt.f0_commitment@, com_dlogs(stmt.commitments@), j).len() == j,
        modl(lin_comb(s_scalars(d, e, j), s_points(stmt.f0_commitment@, com_dlogs(stmt.commitments@), j))) == modl(e
            * ssum(stmt, d, j)),
    decreases j,
{
    let f0 = stmt.f0_commitment@;
    let cs = com_dlogs(stmt.commitments@);
    if j == 0 {
        assert(e * 0 == 0) by (nonlinear_arith);
    } else {
        lemma_s_part(stmt, d, e, j - 1);
        let ss = s_scalars(d, e, j - 1);
        let sp = s_points(f0, cs, j - 1);
        let pt = spoint(stmt, j - 1);
        assert(s_points(f0, cs, j) =~= sp.push(pt));
        let a = modl(d[j - 1] * e);
        lemma_lin_comb_push(ss, sp, a, pt);
        lemma_modl_mul(d[j - 1] * e, pt);
        lemma_modl_add_cong(lin_comb(ss, sp), a * pt, e * ssum(stmt, d, j - 1), d[j - 1] * e * pt);
        assert(e * (ssum(stmt, d, j - 1) + d[j - 1] * pt) == e * ssum(stmt, d, j - 1) + d[j - 1] * e * pt) by (nonlinear_arith);
    }
}

/// The reduced running sum on `g` is the reduced plain sum.
proof fn lemma_g_acc(x: Seq<int>, zh: Seq<int>, d: Seq<int>, j: int)
    requires
        0 <= j,
    ensures
        g_acc(x, zh, d, j) == modl(vsum(x, zh, d, j)),
    decreases j,
{
    if j > 0 {
        lemma_g_acc(x, zh, d, j - 1);
        let v = vsum(x, zh, d, j - 1);
        let p = d[j] * poly_eval(zh, x[j - 1]);
        lemma_modl_add(v, modl(p));
        lemma_modl_add(v, p);
    }
}

/// The reduced running sum on `h` is the reduced plain sum.
proof fn lemma_h_acc(rounds: Seq<RoundData>, g: Seq<int>, d: Seq<int>, n: int, j: int)
    requires
        0 <= j <= n,
    ensures
        h_acc(rounds, g, d, j) == modl(bsum(bseq(rounds, g, n, rounds.len() as int), d, j)),
    decreases j,
{
    lemma_modl_bound(0);
    if j > 0 {
        lemma_h_acc(rounds, g, d, n, j - 1);
        let bs = bseq(rounds, g, n, rounds.len() as int);
        let v = bsum(bs, d, j - 1);
        let p = d[j] * bs[j - 1];
        lemma_modl_add(v, modl(p));
        lemma_modl_add(v, p);
    }
}

/// `sum_{i < r} g_i sum_{j <= n} d_j residual_{i,j}`: every Sigma equation
/// `T_ij + e_i S_j - g v_ij - h w_ij` of the first `r` rounds, weighted by
/// `gamma_i delta_j`.
pub open spec fn weighted_equations(stmt: PolyWellFormedStatement, rounds: Seq<RoundData>, d: Seq<int>, g: Seq<int>, r: int) -> int
    decreases r,
{
    if r <= 0 {
        0
    } else {
        weighted_equations(stmt, rounds, d, g, r - 1) + g[r - 1] * rsum(
            stmt,
            rounds[r - 1],
            d,
            stmt.x_points@.len() + 1int,
        )
    }
}

/// The folded exponent of the first `r` rounds is their weighted equations.
proof fn lemma_fsum_is_weighted(stmt: PolyWellFormedStatement, rounds: Seq<RoundData>, g: Seq<int>, d: Seq<int>, r: int)
    requires
        0 <= r <= rounds.len(),
        rank1_shape(stmt, rounds, d.len() as int, g.len() as int),
    ensures
        modl(fsum(stmt, rounds, g, d, r)) == modl(weighted_equations(stmt, rounds, d, g, r)),
    decreases r,
{
    let n = stmt.x_points@.len() as int;
    lemma_modl_bound(0);
    if r == 0 {
        let zs = zseq(rounds, g, stmt.degree as int, 0);
        let bs = bseq(rounds, g, n, 0);
        assert forall|k: int| 0 <= k < zs.len() implies #[trigger] zs[k] == 0 by {}
        assert forall|k: int| 0 <= k < bs.len() implies #[trigger] bs[k] == 0 by {}
        lemma_sums_zero(svals(stmt.x_points@), zs, bs, d, n);
        assert(0 * ssum(stmt, d, n + 1) == 0) by (nonlinear_arith);
        assert(h_dlog() * 0 == 0) by (nonlinear_arith);
    } else {
        lemma_fsum_is_weighted(stmt, rounds, g, d, r - 1);
        lemma_fsum_step(stmt, rounds, g, d, r);
        let rs = g[r - 1] * rsum(stmt, rounds[r - 1], d, n + 1);
        lemma_modl_add_cong(fsum(stmt, rounds, g, d, r - 1), rs, weighted_equations(stmt, rounds, d, g, r - 1), rs);
    }
}

/// The folded check computes the weighted sum of all Sigma equations: the
/// multiscalar combination is `sum_i sum_j gamma_i delta_j (T_ij + e_i S_j -
/// g v_ij - h w_ij)`, with `S_0 = f0`, `v_i0 = z_i(0)`, `w_i0 = 0`, and
/// `S_j = C_j`, `v_ij = z_i(x_j)`, `w_ij = zb_ij` for the commitments.
pub proof fn lemma_rank1_is_weighted_sum(stmt: PolyWellFormedStatement, rounds: Seq<RoundData>, d: Seq<int>, g: Seq<int>)
    requires
        rank1_shape(stmt, rounds, d.len() as int, g.len() as int),
        stmt.commitments@.len() == stmt.x_points@.len(),
    ensures
        modl(lin_comb(rank1_scalars(stmt, rounds, d, g), rank1_points(stmt, rounds))) == modl(
            weighted_equations(stmt, rounds, d, g, rounds.len() as int),
        ),
{
    lemma_rank1_is_fsum(stmt, rounds, d, g);
    lemma_fsum_is_weighted(stmt, rounds, g, d, rounds.len() as int);
}

/// Completeness of the folded check: when every round satisfies its Sigma
/// equations, the rank-1 check holds whatever the fold weights.
pub proof fn lemma_rank1_complete(stmt: PolyWellFormedStatement, rounds: Seq<RoundData>, d: Seq<int>, g: Seq<int>)
    requires
        rank1_shape(stmt, rounds, d.len() as int, g.len() as int),
        stmt.commitments@.len() == stmt.x_points@.len(),
        forall|i: int| 0 <= i < rounds.len() ==> round_holds(stmt, #[trigger] rounds[i]),
    ensures
        rank1_check(stmt, rounds, d, g),
{
    lemma_rank1_is_fsum(stmt, rounds, d, g);
    lemma_fsum_zero(stmt, rounds, g, d, rounds.len() as int);
}

/// The multiscalar combination of the folded check is the folded exponent.
proof fn lemma_rank1_is_fsum(stmt: PolyWellFormedStatement, rounds: Seq<RoundData>, d: Seq<int>, g: Seq<int>)
    requires
        rank1_shape(stmt, rounds, d.len() as int, g.len() as int),
        stmt.commitments@.len() == stmt.x_points@.len(),
    ensures
        modl(lin_comb(rank1_scalars(stmt, rounds, d, g), rank1_points(stmt, rounds))) == modl(
            fsum(stmt, rounds, g, d, rounds.len() as int),
        ),
{
    let n = stmt.x_points@.len() as int;
    let rl = rounds.len() as int;
    let x = svals(stmt.x_points@);
    let h = h_dlog();
    let zh = zhat(rounds, g, stmt.degree as int);
    let e = efold(rounds, g, rl);
    let bs = bseq(rounds, g, n, rl);
    let ts = t_scalars(g, d, rl, 0);
    let tp = t_points(rounds, n + 1, rl, 0);
    let ss = s_scalars(d, e, n + 1);
    let sp = s_points(stmt.f0_commitment@, com_dlogs(stmt.commitments@), n + 1);
    let ga = g_acc(x, zh, d, n);
    let ha = h_acc(rounds, g, d, n);
    let l2s = seq![modl(-ga), modl(-ha)];
    let l2p = seq![1int, h];
    assert(rank1_scalars(stmt, rounds, d, g) == ts + ss + l2s);
    assert(rank1_points(stmt, rounds) == tp + sp + l2p);
    lemma_t_part(rounds, g, d, rl, 0);
    lemma_s_part(stmt, d, e, n + 1);
    lemma_lin_comb_append(ts, tp, ss, sp);
    lemma_lin_comb_append(ts + ss, tp + sp, l2s, l2p);
    lemma_lin_comb_push(seq![modl(-ga)], seq![1int], modl(-ha), h);
    lemma_lin_comb_push(Seq::empty(), Seq::empty(), modl(-ga), 1);
    assert(seq![modl(-ga)] =~= Seq::<int>::empty().push(modl(-ga)));
    assert(seq![1int] =~= Seq::<int>::empty().push(1));
    assert(l2s =~= seq![modl(-ga)].push(modl(-ha)));
    assert(l2p =~= seq![1int].push(h));
    // the accumulated scalars
    assert(zh =~= zseq(rounds, g, stmt.degree as int, rl));
    lemma_g_acc(x, zh, d, n);
    lemma_h_acc(rounds, g, d, n, n);
    let v = vsum(x, zh, d, n);
    let b = bsum(bs, d, n);
    lemma_modl_idem(v);
    lemma_modl_idem(b);
    lemma_modl_neg_cong(ga, v);
    lemma_modl_neg_cong(ha, b);
    lemma_modl_idem(-ga);
    lemma_modl_idem(-ha);
    assert(modl(-ga) * 1 == modl(-ga));
    lemma_modl_mul_cong(modl(-ha), h, -b, h);
    assert(-b * h == -(h * b)) by (nonlinear_arith);
    // summing up
    let lt = lin_comb(ts, tp);
    let ls = lin_comb(ss, sp);
    lemma_modl_add_cong(lt, ls, tt(rounds, g, d, rl), e * ssum(stmt, d, n + 1));
    lemma_modl_add_cong(lt + ls, modl(-ga) * 1, tt(rounds, g, d, rl) + e * ssum(stmt, d, n + 1), -v);
    lemma_modl_add_cong(
        lt + ls + modl(-ga) * 1,
        modl(-ha) * h,
        tt(rounds, g, d, rl) + e * ssum(stmt, d, n + 1) + -v,
        -(h * b),
    );
}

/// A round made honestly from nonces `rc`, `rb` under a witness satisfies
/// every Sigma equation.
proof fn lemma_honest_round_holds(
    stmt: PolyWellFormedStatement,
    wit: PolyWellFormedWitness,
    rd: RoundData,
    rc: Seq<int>,
    rb: Seq<int>,
)
    requires
        poly_relation(stmt, wit),
        rc.len() == stmt.degree + 1,
        rb.len() == stmt.x_points@.len(),
        rd.0.len() == stmt.x_points@.len() + 1,
        rd.2.len() == stmt.degree + 1,
        rd.3.len() == stmt.x_points@.len(),
        rd.0[0] == modl(rc[0]),
        forall|j: int|
            0 <= j < stmt.x_points@.len() ==> #[trigger] rd.0[j + 1] == com_dlog(
                poly_eval(rc, stmt.x_points@[j]@),
                rb[j],
            ),
        forall|k: int| 0 <= k <= stmt.degree ==> #[trigger] rd.2[k] == modl(rc[k] + modl(rd.1 * wit.coeffs@[k]@)),
        forall|j: int| 0 <= j < stmt.x_points@.len() ==> #[trigger] rd.3[j] == modl(rb[j] + rd.1 * wit.blindings@[j]@),
    ensures
        round_holds(stmt, rd),
{
    let n = stmt.x_points@.len() as int;
    let e = rd.1;
    let h = h_dlog();
    let a = svals(wit.coeffs@);
    assert forall|j: int| 0 <= j <= n implies modl(#[trigger] residual(stmt, rd, j)) == 0 by {
        if j == 0 {
            let a0 = wit.coeffs@[0]@;
            lemma_modl_idem(rc[0]);
            lemma_modl_idem(a0);
            lemma_modl_add(rc[0], e * a0);
            lemma_modl_idem(rc[0] + e * a0);
            assert(0 * h == 0 && e * 0 == 0 && h * 0 == 0) by (nonlinear_arith);
            lemma_equation_cancels(rd.0[0], spoint(stmt, 0), rd.2[0], 0, rc[0], a0, 0, 0, e);
        } else {
            let y = svals(stmt.x_points@)[j - 1];
            assert(y == stmt.x_points@[j - 1]@);
            assert(rd.0[(j - 1) + 1] == com_dlog(poly_eval(rc, y), rb[j - 1]));
            assert(stmt.commitments@[j - 1]@ == com_dlog(poly_eval(a, y), wit.blindings@[j - 1]@));
            assert forall|k: int| 0 <= k < rd.2.len() implies #[trigger] rd.2[k] == modl(rc[k] + modl(e * a[k])) by {}
            lemma_poly_eval_axpy(rc, a, rd.2, e, y);
            let pr = poly_eval(rc, y);
            let pa = poly_eval(a, y);
            lemma_modl_idem(pr + rb[j - 1] * h);
            lemma_modl_idem(pa + wit.blindings@[j - 1]@ * h);
            lemma_modl_idem(pr + e * pa);
            lemma_modl_idem(rb[j - 1] + e * wit.blindings@[j - 1]@);
            lemma_equation_cancels(
                rd.0[j],
                spoint(stmt, j),
                poly_eval(rd.2, y),
                rd.3[j - 1],
                pr,
                pa,
                rb[j - 1],
                wit.blindings@[j - 1]@,
                e,
            );
        }
    }
}

/// Completeness of the single-round proof: an honestly made proof for a
/// witness that opens the statement passes the verifier.
pub proof fn lemma_schnorr_complete(
    stmt: PolyWellFormedStatement,
    wit: PolyWellFormedWitness,
    rc: Seq<int>,
    rb: Seq<int>,
    proof: PolyWellFormedProof,
)
    requires
        poly_relation(stmt, wit),
        schnorr_honest(stmt, wit, rc, rb, proof),
    ensures
        schnorr_valid(stmt, proof),
{
    let n = stmt.x_points@.len() as int;
    let c = schnorr_challenge(stmt, proof.t_commitments@);
    let rd = (dlogs(proof.t_commitments@), c, svals(proof.z_coeffs@), svals(proof.z_blindings@));
    assert forall|j: int| 0 <= j < n implies #[trigger] rd.0[j + 1] == com_dlog(
        poly_eval(rc, stmt.x_points@[j]@),
        rb[j],
    ) by {
        assert(proof.t_commitments@[j + 1]@ == rd.0[j + 1]);
    }
    assert forall|k: int| 0 <= k <= stmt.degree implies #[trigger] rd.2[k] == modl(rc[k] + modl(rd.1 * wit.coeffs@[k]@)) by {
        assert(proof.z_coeffs@[k]@ == rd.2[k]);
    }
    assert forall|j: int| 0 <= j < n implies #[trigger] rd.3[j] == modl(rb[j] + rd.1 * wit.blindings@[j]@) by {
        assert(proof.z_blindings@[j]@ == rd.3[j]);
        lemma_modl_add(rb[j], rd.1 * wit.blindings@[j]@);
    }
    lemma_honest_round_holds(stmt, wit, rd, rc, rb);
    let d = schnorr_deltas(stmt, proof);
    lemma_indexed_values_len(
        schnorr_weight_history(stmt, proof),
        "delta_index".spec_bytes(),
        "delta".spec_bytes(),
        n + 1,
    );
    let rounds = seq![rd];
    assert(rounds[0] == rd);
    lemma_rank1_complete(stmt, rounds, d, seq![1int]);
}

/// Completeness of the Fischlin proof: an honestly made proof for a witness
/// that opens the statement passes the verifier with the same parameters.
pub proof fn lemma_fischlin_complete(
    stmt: PolyWellFormedStatement,
    wit: PolyWellFormedWitness,
    proof: PolyWellFormedFischlinProof,
    rho: int,
    b: int,
    t_bits: int,
)
    requires
        rho > 0,
        1 <= b <= 31,
        1 <= t_bits <= 15,
        b <= t_bits,
        poly_relation(stmt, wit),
        fischlin_honest(stmt, wit, proof, rho, b, t_bits),
    ensures
        fischlin_valid(stmt, proof, rho, b, t_bits),
{
    let n = stmt.x_points@.len() as int;
    let rs = proof.rounds@;
    let rounds = fischlin_rounds_data(rs);
    let ch = sha512_spec(common_h_input(stmt, round_ts(rs)));
    assert forall|i: int| 0 <= i < rs.len() implies round_shape(stmt, #[trigger] rs[i], t_bits) by {
        assert(round_honest(stmt, wit, ch, i, rs[i], b, t_bits));
        let (rc, rb) = choose|rc: Seq<int>, rb: Seq<int>| round_opens(stmt, wit, rs[i], rc, rb);
    }
    assert forall|i: int| 0 <= i < rounds.len() implies round_holds(stmt, #[trigger] rounds[i]) by {
        let r = rs[i];
        assert(round_honest(stmt, wit, ch, i, r, b, t_bits));
        let (rc, rb) = choose|rc: Seq<int>, rb: Seq<int>| round_opens(stmt, wit, r, rc, rb);
        let rd = rounds[i];
        assert(rd == (dlogs(r.t_commitments@), r.e as int, svals(r.z_coeffs@), svals(r.z_blindings@)));
        assert forall|j: int| 0 <= j < n implies #[trigger] rd.0[j + 1] == com_dlog(
            poly_eval(rc, stmt.x_points@[j]@),
            rb[j],
        ) by {
            assert(r.t_commitments@[j + 1]@ == rd.0[j + 1]);
        }
        assert forall|k: int| 0 <= k <= stmt.degree implies #[trigger] rd.2[k] == modl(rc[k] + modl(rd.1 * wit.coeffs@[k]@)) by {
            assert(r.z_coeffs@[k]@ == rd.2[k]);
            lemma_modl_add(rc[k], rd.1 * wit.coeffs@[k]@);
        }
        assert forall|j: int| 0 <= j < n implies #[trigger] rd.3[j] == modl(rb[j] + rd.1 * wit.blindings@[j]@) by {
            assert(r.z_blindings@[j]@ == rd.3[j]);
        }
        assert(rd.0[0] == r.t_commitments@[0]@);
        lemma_honest_round_holds(stmt, wit, rd, rc, rb);
    }
    let d = fischlin_deltas(stmt, rs);
    let g = fischlin_gammas(stmt, rs);
    lemma_indexed_values_len(
        fischlin_weight_history(stmt, rs),
        "delta_index".spec_bytes(),
        "delta".spec_bytes(),
        n + 1,
    );
    lemma_indexed_values_len(
        indexed_history(fischlin_weight_history(stmt, rs), "delta_index".spec_bytes(), "delta".spec_bytes(), n + 1),
        "gamma_index".spec_bytes(),
        "gamma".spec_bytes(),
        rs.len() as int,
    );
    assert forall|i: int| 0 <= i < rounds.len() implies (#[trigger] rounds[i]).0.len() == n + 1 && rounds[i].3.len() == n
        && rounds[i].2.len() == stmt.degree + 1 by {
        assert(round_shape(stmt, rs[i], t_bits));
    }
    lemma_rank1_complete(stmt, rounds, d, g);
}

/// Two statements with the same evaluation points (by value), commitments,
/// `f0` and degree.
pub open spec fn same_statement(s1: PolyWellFormedStatement, s2: PolyWellFormedStatement) -> bool {
    &&& s1.x_points@.len() == s2.x_points@.len()
    &&& forall|i: int| 0 <= i < s1.x_points@.len() ==> (#[trigger] s1.x_points@[i])@ == s2.x_points@[i]@
    &&& s1.commitments@ == s2.commitments@
    &&& s1.f0_commitment == s2.f0_commitment
    &&& s1.degree == s2.degree
}

/// Statements that agree by value hold the same evaluation points.
proof fn lemma_same_points(s1: PolyWellFormedStatement, s2: PolyWellFormedStatement)
    requires
        same_statement(s1, s2),
    ensures
        s1.x_points@ == s2.x_points@,
{
    assert forall|i: int| 0 <= i < s1.x_points@.len() implies s1.x_points@[i] == s2.x_points@[i] by {
        Scalar::lemma_value_determines(s1.x_points@[i], s2.x_points@[i]);
    }
    assert(s1.x_points@ =~= s2.x_points@);
}

/// The single-round verifier's verdict depends on the statement's values only.
pub proof fn lemma_schnorr_valid_same_statement(s1: PolyWellFormedStatement, s2: PolyWellFormedStatement, p: PolyWellFormedProof)
    requires
        same_statement(s1, s2),
    ensures
        schnorr_valid(s1, p) == schnorr_valid(s2, p),
{
    lemma_same_points(s1, s2);
    assert(statement_ops(s1) == statement_ops(s2));
    assert(schnorr_history(s1, p.t_commitments@) == schnorr_history(s2, p.t_commitments@));
    assert(schnorr_weight_history(s1, p) == schnorr_weight_history(s2, p));
    let rounds = seq![
        (dlogs(p.t_commitments@), schnorr_challenge(s1, p.t_commitments@), svals(p.z_coeffs@), svals(p.z_blindings@)),
    ];
    let d = schnorr_deltas(s1, p);
    assert(rank1_scalars(s1, rounds, d, seq![1int]) == rank1_scalars(s2, rounds, d, seq![1int]));
    assert(rank1_points(s1, rounds) == rank1_points(s2, rounds));
    assert(rank1_check(s1, rounds, d, seq![1int]) == rank1_check(s2, rounds, d, seq![1int]));
}

/// The Fischlin verifier's verdict depends on the statement's values only.
pub proof fn lemma_fischlin_valid_same_statement(
    s1: PolyWellFormedStatement,
    s2: PolyWellFormedStatement,
    p: PolyWellFormedFischlinProof,
    rho: int,
    b: int,
    t_bits: int,
)
    requires
        same_statement(s1, s2),
    ensures
        fischlin_valid(s1, p, rho, b, t_bits) == fischlin_valid(s2, p, rho, b, t_bits),
{
    let rs = p.rounds@;
    lemma_same_points(s1, s2);
    assert(statement_hash_bytes(s1) == statement_hash_bytes(s2));
    assert(common_h_input(s1, round_ts(rs)) == common_h_input(s2, round_ts(rs)));
    assert(statement_ops(s1) == statement_ops(s2));
    assert(fischlin_weight_history(s1, rs) == fischlin_weight_history(s2, rs));
    assert(fischlin_deltas(s1, rs) == fischlin_deltas(s2, rs));
    assert(fischlin_gammas(s1, rs) == fischlin_gammas(s2, rs));
    let rounds = fischlin_rounds_data(rs);
    let d = fischlin_deltas(s1, rs);
    let g = fischlin_gammas(s1, rs);
    assert(rank1_scalars(s1, rounds, d, g) == rank1_scalars(s2, rounds, d, g));
    assert(rank1_points(s1, rounds) == rank1_points(s2, rounds));
    assert(rank1_check(s1, rounds, d, g) == rank1_check(s2, rounds, d, g));
    assert(forall|i: int| 0 <= i < rs.len() ==> round_shape(s1, #[trigger] rs[i], t_bits) == round_shape(s2, rs[i], t_bits));
}

/// `sum_{i < j} d[i] * s[i]`, unreduced, for two sequences that agree on their
/// first `j` entries with two others.
proof fn lemma_dot_same(s1: Seq<int>, k1: Seq<int>, s2: Seq<int>, k2: Seq<int>, j: int)
    requires
        0 <= j,
        forall|i: int| 0 <= i < j ==> s1[i] == s2[i] && k1[i] == k2[i],
    ensures
        dot(s1, k1, j) == dot(s2, k2, j),
    decreases j,
{
    if j > 0 {
        lemma_dot_same(s1, k1, s2, k2, j - 1);
    }
}

/// A linear combination is the index-wise sum of products.
proof fn lemma_lin_comb_is_dot(s: Seq<int>, k: Seq<int>)
    requires
        s.len() == k.len(),
    ensures
        lin_comb(s, k) == dot(s, k, s.len() as int),
    decreases s.len(),
{
    if s.len() > 0 {
        lemma_lin_comb_is_dot(s.drop_last(), k.drop_last());
        lemma_dot_same(s.drop_last(), k.drop_last(), s, k, s.len() - 1);
    }
}

/// The weighted power sums `sum_{i < j} l[i + 1] x[i]^k`, for `k < m`.
spec fn wps_seq(x: Seq<int>, l: Seq<int>, m: int, j: int) -> Seq<int> {
    Seq::new(m as nat, |k: int| weighted_power_sum(x, l, k as nat, j))
}

/// `sum_{i < j} l[i + 1] a(x[i])`, each evaluation a power sum of `m` terms.
spec fn esum(a: Seq<int>, x: Seq<int>, l: Seq<int>, m: int, j: int) -> int
    decreases j,
{
    if j <= 0 {
        0
    } else {
        esum(a, x, l, m, j - 1) + l[j] * pow_sum(a, x[j - 1], m)
    }
}

/// One more evaluation point adds its weighted evaluation.
proof fn lemma_dot_wps_step(a: Seq<int>, x: Seq<int>, l: Seq<int>, mm: int, m: int, j: int)
    requires
        1 <= j,
        0 <= m <= mm,
    ensures
        dot(a, wps_seq(x, l, mm, j), m) == dot(a, wps_seq(x, l, mm, j - 1), m) + l[j] * pow_sum(a, x[j - 1], m),
    decreases m,
{
    if m > 0 {
        lemma_dot_wps_step(a, x, l, mm, m - 1, j);
        let u = weighted_power_sum(x, l, (m - 1) as nat, j - 1);
        let p = pow(x[j - 1], (m - 1) as nat);
        assert(wps_seq(x, l, mm, j)[m - 1] == u + l[j] * p);
        assert(wps_seq(x, l, mm, j - 1)[m - 1] == u);
        let am = a[m - 1];
        let lj = l[j];
        assert(am * (u + lj * p) == am * u + lj * (am * p)) by (nonlinear_arith);
        assert(lj * (pow_sum(a, x[j - 1], m - 1) + am * p) == lj * pow_sum(a, x[j - 1], m - 1) + lj * (am * p)) by (nonlinear_arith);
    }
}

/// No evaluation points give zero sums.
proof fn lemma_dot_wps_zero(a: Seq<int>, x: Seq<int>, l: Seq<int>, mm: int, m: int)
    requires
        0 <= m <= mm,
    ensures
        dot(a, wps_seq(x, l, mm, 0), m) == 0,
    decreases m,
{
    if m > 0 {
        lemma_dot_wps_zero(a, x, l, mm, m - 1);
        assert(wps_seq(x, l, mm, 0)[m - 1] == 0);
        assert(a[m - 1] * 0 == 0) by (nonlinear_arith);
    }
}

/// Exchanging the two sums: the coefficients against the weighted power sums
/// give the weighted evaluations.
proof fn lemma_dot_wps(a: Seq<int>, x: Seq<int>, l: Seq<int>, m: int, j: int)
    requires
        0 <= m,
        0 <= j,
    ensures
        dot(a, wps_seq(x, l, m, j), m) == esum(a, x, l, m, j),
    decreases j,
{
    if j == 0 {
        lemma_dot_wps_zero(a, x, l, m, m);
    } else {
        lemma_dot_wps(a, x, l, m, j - 1);
        lemma_dot_wps_step(a, x, l, m, m, j);
    }
}

/// The coefficients against the weights `mu` give `l_0 a_0` plus the weighted
/// evaluations, modulo the group order.
proof fn lemma_dot_mus(a: Seq<int>, x: Seq<int>, l: Seq<int>, mus: Seq<int>, m: int, mm: int)
    requires
        1 <= m <= mm,
        mus.len() == mm,
        forall|k: int|
            0 <= k < mm ==> #[trigger] mus[k] == mu_value(x, l, k as nat),
    ensures
        modl(dot(a, mus, m)) == modl(a[0] * l[0] + dot(a, wps_seq(x, l, mm, x.len() as int), m)),
    decreases m,
{
    let n = x.len() as int;
    let ws = wps_seq(x, l, mm, n);
    let k = m - 1;
    let d = if k == 0 { l[0] } else { 0 };
    assert(mus[k] == modl(d + ws[k]));
    lemma_modl_idem(d + ws[k]);
    lemma_modl_mul_cong(a[k], mus[k], a[k], d + ws[k]);
    if m == 1 {
        assert(dot(a, mus, 0) == 0 && dot(a, ws, 0) == 0);
        assert(a[0] * (l[0] + ws[0]) == a[0] * l[0] + a[0] * ws[0]) by (nonlinear_arith);
        lemma_modl_add_cong(0, a[0] * mus[0], 0, a[0] * (l[0] + ws[0]));
    } else {
        lemma_dot_mus(a, x, l, mus, m - 1, mm);
        assert(a[k] * (0 + ws[k]) == a[k] * ws[k]) by (nonlinear_arith);
        lemma_modl_add_cong(dot(a, mus, k), a[k] * mus[k], a[0] * l[0] + dot(a, ws, k), a[k] * ws[k]);
    }
}

/// `sum_{i < j} l[i + 1] c[i]`.
spec fn csum(l: Seq<int>, c: Seq<int>, j: int) -> int
    decreases j,
{
    if j <= 0 {
        0
    } else {
        csum(l, c, j - 1) + l[j] * c[j - 1]
    }
}

/// `sum_{i < j} w[i] l[i + 1]`.
spec fn wsum(w: Seq<int>, l: Seq<int>, j: int) -> int
    decreases j,
{
    if j <= 0 {
        0
    } else {
        wsum(w, l, j - 1) + w[j - 1] * l[j]
    }
}

/// Weighting `f0` followed by the commitments splits off `l_0 f0`.
proof fn lemma_dot_shift(l: Seq<int>, f0: int, c: Seq<int>, j: int)
    requires
        0 <= j <= c.len(),
    ensures
        dot(l, seq![f0] + c, j + 1) == l[0] * f0 + csum(l, c, j),
    decreases j,
{
    if j > 0 {
        lemma_dot_shift(l, f0, c, j - 1);
        assert((seq![f0] + c)[j] == c[j - 1]);
    } else {
        assert((seq![f0] + c)[0] == f0);
        assert(dot(l, seq![f0] + c, 0) == 0);
        assert(csum(l, c, 0) == 0);
        assert(dot(l, seq![f0] + c, 1) == l[0] * f0);
    }
}

/// The weighted tail of the blinding weights.
proof fn lemma_dot_tail(w: Seq<int>, l: Seq<int>, j: int)
    requires
        0 <= j <= w.len(),
        w.len() + 1 == l.len(),
    ensures
        dot(w, l.drop_first(), j) == wsum(w, l, j),
    decreases j,
{
    if j > 0 {
        lemma_dot_tail(w, l, j - 1);
    }
}

/// The weighted commitments are the weighted evaluations plus `h` times the
/// weighted blindings, modulo the group order.
proof fn lemma_csum_split(l: Seq<int>, c: Seq<int>, a: Seq<int>, x: Seq<int>, w: Seq<int>, m: int, j: int)
    requires
        0 <= j <= c.len(),
        j <= x.len(),
        j <= w.len(),
        m == a.len(),
        forall|i: int| 0 <= i < c.len() ==> #[trigger] c[i] == com_dlog(poly_eval(a, x[i]), w[i]),
    ensures
        modl(csum(l, c, j)) == modl(esum(a, x, l, m, j) + h_dlog() * wsum(w, l, j)),
    decreases j,
{
    let h = h_dlog();
    lemma_modl_bound(0);
    if j == 0 {
        assert(h * 0 == 0) by (nonlinear_arith);
    } else {
        lemma_csum_split(l, c, a, x, w, m, j - 1);
        let i = j - 1;
        let ps = pow_sum(a, x[i], m);
        lemma_poly_sum_is_pow_sum(a, x[i]);
        lemma_modl_idem(ps);
        lemma_modl_add_cong(poly_eval(a, x[i]), w[i] * h, ps, w[i] * h);
        lemma_modl_idem(poly_eval(a, x[i]) + w[i] * h);
        lemma_modl_mul_cong(l[j], c[i], l[j], ps + w[i] * h);
        let e0 = esum(a, x, l, m, i);
        let b0 = wsum(w, l, i);
        lemma_modl_add_cong(csum(l, c, i), l[j] * c[i], e0 + h * b0, l[j] * (ps + w[i] * h));
        assert(l[j] * (ps + w[i] * h) == l[j] * ps + h * (w[i] * l[j])) by (nonlinear_arith);
        assert(h * (b0 + w[i] * l[j]) == h * b0 + h * (w[i] * l[j])) by (nonlinear_arith);
    }
}

/// The outputs of an honestly made linear-proof bundle add up to the weighted
/// statement: `<a, mu> + h <w, lambda_tail> = lambda_0 f0 + sum_j lambda_j C_j`.
pub proof fn lemma_bp_coupling(stmt: PolyWellFormedStatement, wit: PolyWellFormedWitness, proof: PolyWellFormedBulletproof)
    requires
        poly_relation(stmt, wit),
        bulletproof_honest(stmt, wit, proof),
    ensures
        modl(proof.coeff_output@ + proof.blind_output@) == modl(
            lin_comb(bp_lambdas(stmt), seq![stmt.f0_commitment@] + com_dlogs(stmt.commitments@)),
        ),
{
    let n = stmt.x_points@.len() as int;
    let x = svals(stmt.x_points@);
    let a = svals(wit.coeffs@);
    let w = svals(wit.blindings@);
    let m = a.len() as int;
    let degree = m - 1;
    let l = bp_lambdas(stmt);
    let h = h_dlog();
    let c = com_dlogs(stmt.commitments@);
    let mus = bp_mus(stmt, degree);
    lemma_indexed_values_len(
        seq![op_init("poly-well-formedness-bp".spec_bytes())] + batched_statement_ops(stmt),
        "lambda_index".spec_bytes(),
        "lambda".spec_bytes(),
        n + 1,
    );
    // the coefficient side
    lemma_lin_comb_is_dot(a, mus);
    lemma_dot_mus(a, x, l, mus, m, m);
    lemma_dot_wps(a, x, l, m, n);
    let ea = esum(a, x, l, m, n);
    // the blinding side
    lemma_lin_comb_is_dot(w, l.drop_first());
    lemma_dot_tail(w, l, n);
    let bw = wsum(w, l, n);
    // the statement side
    assert forall|i: int| 0 <= i < c.len() implies #[trigger] c[i] == com_dlog(poly_eval(a, x[i]), w[i]) by {
        assert(c[i] == stmt.commitments@[i]@);
    }
    lemma_lin_comb_is_dot(l, seq![stmt.f0_commitment@] + c);
    assert((seq![stmt.f0_commitment@] + c).len() == n + 1);
    lemma_dot_shift(l, stmt.f0_commitment@, c, n);
    lemma_csum_split(l, c, a, x, w, m, n);
    // putting the sides together
    let co = proof.coeff_output@;
    let bo = proof.blind_output@;
    assert(co == modl(dot(a, mus, m)));
    lemma_modl_idem(dot(a, mus, m));
    lemma_modl_idem(wsum(w, l, n));
    lemma_modl_mul_cong(h, modl(bw), h, bw);
    lemma_modl_idem(h * modl(bw));
    lemma_modl_add_cong(co, bo, a[0] * l[0] + ea, h * bw);
    lemma_modl_idem(a[0]);
    lemma_modl_mul_cong(l[0], stmt.f0_commitment@, l[0], a[0]);
    lemma_modl_add_cong(l[0] * stmt.f0_commitment@, csum(l, c, n), l[0] * a[0], ea + h * bw);
    assert(a[0] * l[0] == l[0] * a[0]) by (nonlinear_arith);
}

/// An honestly made bundle for a witness that opens the statement, whose two
/// linear proofs verify, passes the verifier with the parameters it was made
/// with: the public coupling of the two outputs always holds. (Whether the
/// linear proofs verify depends on the nonces they drew.)
pub proof fn lemma_bulletproof_complete_given_linear(
    stmt: PolyWellFormedStatement,
    wit: PolyWellFormedWitness,
    proof: PolyWellFormedBulletproof,
    pp: PolyWellFormedBulletproofParams,
)
    requires
        poly_relation(stmt, wit),
        stmt.x_points@.len() < usize::MAX,
        pp.coeff_m >= wit.coeffs@.len(),
        pp.blind_m >= wit.blindings@.len(),
        params_ok(pp),
        bulletproof_honest(stmt, wit, proof),
        bulletproof_linear_ok(stmt, proof, pp),
    ensures
        bulletproof_valid(stmt, proof, pp),
{
    lemma_bp_coupling(stmt, wit, proof);
}

/// The linear-proof verifier's verdict depends on the statement's values only.
pub proof fn lemma_bulletproof_valid_same_statement(
    s1: PolyWellFormedStatement,
    s2: PolyWellFormedStatement,
    p: PolyWellFormedBulletproof,
    pp: PolyWellFormedBulletproofParams,
)
    requires
        same_statement(s1, s2),
    ensures
        bulletproof_valid(s1, p, pp) == bulletproof_valid(s2, p, pp),
{
    lemma_same_points(s1, s2);
    assert(batched_statement_ops(s1) == batched_statement_ops(s2));
    assert(bp_lambdas(s1) == bp_lambdas(s2));
    assert(bp_mus(s1, p.degree as int) == bp_mus(s2, p.degree as int));
    assert(bulletproof_linear_ok(s1, p, pp) == bulletproof_linear_ok(s2, p, pp));
}

} // verus!
