//! Honest decomposition proofs verify: the folded check of the verifier holds
//! for a proof made from a witness that opens the statement.

use crate::arith::{lemma_modl_add, lemma_modl_add_cong, lemma_modl_bound, lemma_modl_idem, lemma_modl_mul_cong, modl};
use crate::group::{combination_is_identity, h_dlog, lin_comb, svals};
use crate::one_round_proofs::utils::com_dlogs;
use crate::pedersen::com_dlog;
use crate::transcript::{indexed_values, TranscriptOp};
use crate::two_round_proofs::comeq_proof::sigma_holds;
use crate::two_round_proofs::decom_proof::{
    combined, decom_challenge, decom_honest, decom_lambdas, decom_points, decom_relation, decom_scalars, decom_valid,
    fold_sum, DecomProof, DecomStatement, DecomWitness,
};
use crate::two_round_proofs::decom_proof_fischlin::{
    decom_common_h, decom_fischlin_honest, decom_fischlin_lambdas, decom_fischlin_valid, decom_round_opens,
    decom_round_shape, decom_round_ts, decom_round_valid, pedvss_star, DecomFischlinProof, DecomFischlinRound,
};
use vstd::prelude::*;
use vstd::string::StringSliceAdditionalSpecFns;

verus! {

/// `sum_{k < j} zs[k] * ls[k]`, unreduced.
pub open spec fn dot(zs: Seq<int>, ls: Seq<int>, j: int) -> int
    decreases j,
{
    if j <= 0 {
        0
    } else {
        dot(zs, ls, j - 1) + zs[j - 1] * ls[j - 1]
    }
}

/// As many weights as were asked for.
pub(crate) proof fn lemma_indexed_values_len(h: Seq<TranscriptOp>, il: Seq<u8>, cl: Seq<u8>, count: int)
    requires
        0 <= count,
    ensures
        indexed_values(h, il, cl, count).len() == count,
    decreases count,
{
    if count > 0 {
        lemma_indexed_values_len(h, il, cl, count - 1);
    }
}

/// The reduced running sum is the reduced plain sum.
proof fn lemma_fold_sum_dot(zs: Seq<int>, ls: Seq<int>, j: int)
    requires
        0 <= j,
    ensures
        fold_sum(zs, ls, j) == modl(dot(zs, ls, j)),
    decreases j,
{
    if j == 0 {
        lemma_modl_bound(0);
    } else {
        lemma_fold_sum_dot(zs, ls, j - 1);
        let d = dot(zs, ls, j - 1);
        let p = zs[j - 1] * ls[j - 1];
        lemma_modl_add(d, modl(p));
        lemma_modl_add(d, p);
    }
}

/// `combined` is the reduced plain sum plus the last weight times `last`.
proof fn lemma_combined(zs: Seq<int>, ls: Seq<int>, last: int, n: int)
    requires
        0 <= n,
    ensures
        combined(zs, ls, last, n) == modl(dot(zs, ls, n) + ls[n] * last),
{
    lemma_fold_sum_dot(zs, ls, n);
    let d = dot(zs, ls, n);
    let p = ls[n] * last;
    lemma_modl_add(d, modl(p));
    lemma_modl_add(d, p);
}

/// Responses `z = a + e w` sum, under weights, to the nonces' sum plus `e`
/// times the witness's.
proof fn lemma_dot_honest(zs: Seq<int>, aa: Seq<int>, w: Seq<int>, ls: Seq<int>, e: int, j: int)
    requires
        0 <= j <= zs.len(),
        j <= aa.len(),
        j <= w.len(),
        forall|k: int| 0 <= k < j ==> #[trigger] zs[k] == modl(aa[k] + modl(e * w[k])),
    ensures
        modl(dot(zs, ls, j)) == modl(dot(aa, ls, j) + e * dot(w, ls, j)),
    decreases j,
{
    if j > 0 {
        lemma_dot_honest(zs, aa, w, ls, e, j - 1);
        let z = zs[j - 1];
        let a = aa[j - 1];
        let x = w[j - 1];
        let l = ls[j - 1];
        lemma_modl_add(a, e * x);
        lemma_modl_idem(a + modl(e * x));
        assert(modl(z) == modl(a + e * x));
        lemma_modl_mul_cong(z, l, a + e * x, l);
        lemma_modl_add_cong(
            dot(zs, ls, j - 1),
            z * l,
            dot(aa, ls, j - 1) + e * dot(w, ls, j - 1),
            (a + e * x) * l,
        );
        assert(dot(aa, ls, j - 1) + e * dot(w, ls, j - 1) + (a + e * x) * l == dot(aa, ls, j) + e * dot(w, ls, j))
            by (nonlinear_arith)
            requires
                dot(aa, ls, j) == dot(aa, ls, j - 1) + a * l,
                dot(w, ls, j) == dot(w, ls, j - 1) + x * l,
        ;
    }
}

/// A linear combination over two concatenated parts is the sum of the two.
pub(crate) proof fn lemma_lin_comb_append(s1: Seq<int>, k1: Seq<int>, s2: Seq<int>, k2: Seq<int>)
    requires
        s1.len() == k1.len(),
        s2.len() == k2.len(),
    ensures
        lin_comb(s1 + s2, k1 + k2) == lin_comb(s1, k1) + lin_comb(s2, k2),
    decreases s2.len(),
{
    if s2.len() == 0 {
        assert(s1 + s2 =~= s1);
        assert(k1 + k2 =~= k1);
    } else {
        lemma_lin_comb_append(s1, k1, s2.drop_last(), k2.drop_last());
        assert((s1 + s2).drop_last() =~= s1 + s2.drop_last());
        assert((k1 + k2).drop_last() =~= k1 + k2.drop_last());
    }
}

/// The tail of the folded check over the first `j` commitments: the weights
/// `-e l_k` against `C_k = g^{a_k} h^{b_k}` sum to `-e` times the weighted
/// openings.
proof fn lemma_tail(ts: Seq<int>, ps: Seq<int>, a: Seq<int>, b: Seq<int>, ls: Seq<int>, e: int, j: int)
    requires
        0 <= j <= ts.len(),
        ts.len() == ps.len(),
        j <= a.len(),
        j <= b.len(),
        j <= ls.len(),
        forall|k: int| 0 <= k < j ==> #[trigger] ts[k] == modl(modl(-e) * ls[k]),
        forall|k: int| 0 <= k < j ==> #[trigger] ps[k] == com_dlog(a[k], b[k]),
    ensures
        modl(lin_comb(ts.subrange(0, j), ps.subrange(0, j))) == modl(-e * (dot(a, ls, j) + h_dlog() * dot(b, ls, j))),
    decreases j,
{
    if j == 0 {
        lemma_modl_bound(0);
        assert(-e * (0 + h_dlog() * 0) == 0) by (nonlinear_arith);
    } else {
        lemma_tail(ts, ps, a, b, ls, e, j - 1);
        let t0 = ts.subrange(0, j);
        let p0 = ps.subrange(0, j);
        assert(t0.drop_last() =~= ts.subrange(0, j - 1));
        assert(p0.drop_last() =~= ps.subrange(0, j - 1));
        let l = ls[j - 1];
        let x = a[j - 1];
        let y = b[j - 1];
        let h = h_dlog();
        lemma_modl_idem(-e);
        lemma_modl_mul_cong(modl(-e), l, -e, l);
        lemma_modl_idem(modl(-e) * l);
        lemma_modl_idem(x + y * h);
        lemma_modl_mul_cong(ts[j - 1], ps[j - 1], -e * l, x + y * h);
        lemma_modl_add_cong(
            lin_comb(ts.subrange(0, j - 1), ps.subrange(0, j - 1)),
            ts[j - 1] * ps[j - 1],
            -e * (dot(a, ls, j - 1) + h * dot(b, ls, j - 1)),
            -e * l * (x + y * h),
        );
        assert(-e * (dot(a, ls, j - 1) + h * dot(b, ls, j - 1)) + -e * l * (x + y * h) == -e * (dot(a, ls, j) + h
            * dot(b, ls, j))) by (nonlinear_arith)
            requires
                dot(a, ls, j) == dot(a, ls, j - 1) + x * l,
                dot(b, ls, j) == dot(b, ls, j - 1) + y * l,
        ;
    }
}

/// The folded check's exponent vanishes for honest responses.
proof fn lemma_decom_identity(da: int, db: int, wa: int, wb: int, ln: int, ao: int, ar: int, om: int, rr: int, e: int, h: int)
    ensures
        (da + ln * ao + e * (wa + ln * om)) * 1 + (db + ln * ar + e * (wb + ln * rr)) * h + -1 * ((da + ln * ao) + (db
            + ln * ar) * h) + (-e * (wa + h * wb) + -e * ln * (om + rr * h)) == 0,
{
    let a = da + ln * ao;
    let b = db + ln * ar;
    let w = wa + ln * om;
    let v = wb + ln * rr;
    assert((a + e * w) * 1 == a + e * w) by (nonlinear_arith);
    assert((b + e * v) * h == b * h + (e * v) * h) by (nonlinear_arith);
    assert(-1 * (a + b * h) == -a - b * h) by (nonlinear_arith);
    assert(e * w == e * wa + e * (ln * om)) by (nonlinear_arith)
        requires
            w == wa + ln * om,
    ;
    assert((e * v) * h == (e * wb) * h + (e * (ln * rr)) * h) by (nonlinear_arith)
        requires
            v == wb + ln * rr,
    ;
    assert(-e * (wa + h * wb) == -(e * wa) - (e * wb) * h) by (nonlinear_arith);
    assert(-e * ln * (om + rr * h) == -(e * (ln * om)) - (e * (ln * rr)) * h) by (nonlinear_arith);
}

/// An honest decomposition proof verifies: when the witness opens the
/// statement and the proof was made from it with nonces `aa`, `ab`, `ao`,
/// `ar`, the verifier's folded check holds.
pub proof fn lemma_decom_complete(
    stmt: DecomStatement,
    wit: DecomWitness,
    proof: DecomProof,
    aa: Seq<int>,
    ab: Seq<int>,
    ao: int,
    ar: int,
)
    requires
        0 < stmt.pedvss@.len() < usize::MAX,
        decom_relation(stmt, wit),
        decom_honest(stmt, wit, proof, aa, ab, ao, ar),
    ensures
        decom_valid(stmt, proof),
{
    let n = stmt.pedvss@.len() as int;
    let ls = decom_lambdas(stmt);
    let e = decom_challenge(stmt, proof.t);
    let h = h_dlog();
    lemma_indexed_values_len(
        crate::two_round_proofs::decom_proof::decom_statement_ops(stmt),
        "lambda_idx".spec_bytes(),
        "lambda".spec_bytes(),
        n + 1,
    );
    assert(ls.len() == n + 1);
    let za = svals(proof.z_a@);
    let zb = svals(proof.z_b@);
    let wa = svals(wit.a@);
    let wb = svals(wit.b@);
    let zo = proof.z_omega@;
    let zr = proof.z_r@;
    let om = wit.omega@;
    let rr = wit.r@;
    let ln = ls[n];
    // The two combined responses.
    assert forall|k: int| 0 <= k < n implies #[trigger] za[k] == modl(aa[k] + modl(e * wa[k])) by {
        assert(proof.z_a@[k]@ == modl(aa[k] + modl(e * wit.a@[k]@)));
    }
    assert forall|k: int| 0 <= k < n implies #[trigger] zb[k] == modl(ab[k] + modl(e * wb[k])) by {
        assert(proof.z_b@[k]@ == modl(ab[k] + modl(e * wit.b@[k]@)));
    }
    lemma_dot_honest(za, aa, wa, ls, e, n);
    lemma_dot_honest(zb, ab, wb, ls, e, n);
    lemma_combined(za, ls, zo, n);
    lemma_combined(zb, ls, zr, n);
    lemma_combined(aa, ls, ao, n);
    lemma_combined(ab, ls, ar, n);
    let ca = combined(za, ls, zo, n);
    let cb = combined(zb, ls, zr, n);
    let qa = dot(aa, ls, n) + ln * ao + e * (dot(wa, ls, n) + ln * om);
    let qb = dot(ab, ls, n) + ln * ar + e * (dot(wb, ls, n) + ln * rr);
    // z_omega = ao + e omega, and likewise for z_r.
    lemma_modl_add(ao, e * om);
    lemma_modl_idem(ao + modl(e * om));
    lemma_modl_mul_cong(ln, zo, ln, ao + e * om);
    lemma_modl_add(ar, e * rr);
    lemma_modl_idem(ar + modl(e * rr));
    lemma_modl_mul_cong(ln, zr, ln, ar + e * rr);
    lemma_modl_add_cong(dot(za, ls, n), ln * zo, dot(aa, ls, n) + e * dot(wa, ls, n), ln * (ao + e * om));
    lemma_modl_add_cong(dot(zb, ls, n), ln * zr, dot(ab, ls, n) + e * dot(wb, ls, n), ln * (ar + e * rr));
    assert(dot(aa, ls, n) + e * dot(wa, ls, n) + ln * (ao + e * om) == qa) by (nonlinear_arith)
        requires
            qa == dot(aa, ls, n) + ln * ao + e * (dot(wa, ls, n) + ln * om),
    ;
    assert(dot(ab, ls, n) + e * dot(wb, ls, n) + ln * (ar + e * rr) == qb) by (nonlinear_arith)
        requires
            qb == dot(ab, ls, n) + ln * ar + e * (dot(wb, ls, n) + ln * rr),
    ;
    lemma_modl_idem(dot(za, ls, n) + ln * zo);
    lemma_modl_idem(dot(zb, ls, n) + ln * zr);
    assert(modl(ca) == modl(qa));
    assert(modl(cb) == modl(qb));
    // The nonce commitment.
    let na = dot(aa, ls, n) + ln * ao;
    let nb = dot(ab, ls, n) + ln * ar;
    let t = proof.t@;
    lemma_modl_idem(na);
    lemma_modl_idem(nb);
    lemma_modl_mul_cong(combined(ab, ls, ar, n), h, nb, h);
    lemma_modl_add_cong(combined(aa, ls, ao, n), combined(ab, ls, ar, n) * h, na, nb * h);
    lemma_modl_idem(combined(aa, ls, ao, n) + combined(ab, ls, ar, n) * h);
    assert(modl(t) == modl(na + nb * h));
    // The tail: commitments and D.
    let ts = Seq::new((n + 1) as nat, |k: int| modl(modl(-e) * ls[k]));
    let ps = com_dlogs(stmt.pedvss@) + seq![stmt.d@];
    assert forall|k: int| 0 <= k < n implies #[trigger] ps[k] == com_dlog(wa[k], wb[k]) by {
        assert(ps[k] == stmt.pedvss@[k]@);
    }
    lemma_tail(ts, ps, wa, wb, ls, e, n);
    let tn = ts.subrange(0, n);
    let pn = ps.subrange(0, n);
    assert(ts =~= tn + seq![ts[n]]);
    assert(ps =~= pn + seq![ps[n]]);
    lemma_lin_comb_append(tn, pn, seq![ts[n]], seq![ps[n]]);
    reveal_with_fuel(lin_comb, 2);
    assert(lin_comb(seq![ts[n]], seq![ps[n]]) == ts[n] * ps[n]);
    lemma_modl_idem(-e);
    lemma_modl_mul_cong(modl(-e), ln, -e, ln);
    lemma_modl_idem(modl(-e) * ln);
    lemma_modl_idem(om + rr * h);
    lemma_modl_mul_cong(ts[n], ps[n], -e * ln, om + rr * h);
    let tail = lin_comb(ts, ps);
    let qt = -e * (dot(wa, ls, n) + h * dot(wb, ls, n)) + -e * ln * (om + rr * h);
    lemma_modl_add_cong(
        lin_comb(tn, pn),
        ts[n] * ps[n],
        -e * (dot(wa, ls, n) + h * dot(wb, ls, n)),
        -e * ln * (om + rr * h),
    );
    assert(modl(tail) == modl(qt));
    // The head and the whole.
    let ss = decom_scalars(za, zb, zo, zr, ls, e, n);
    let ks = decom_points(stmt, t);
    let hs = seq![ca, cb, modl(-1)];
    let hk = seq![1, h, t];
    assert(ss =~= hs + ts);
    assert(ks =~= hk + ps);
    lemma_lin_comb_append(hs, hk, ts, ps);
    crate::group::lemma_lin_comb3(hs, hk);
    lemma_modl_idem(-1);
    lemma_modl_mul_cong(cb, h, qb, h);
    lemma_modl_mul_cong(modl(-1), t, -1, na + nb * h);
    lemma_modl_add_cong(ca * 1, cb * h, qa * 1, qb * h);
    lemma_modl_add_cong(ca * 1 + cb * h, modl(-1) * t, qa * 1 + qb * h, -1 * (na + nb * h));
    lemma_modl_add_cong(ca * 1 + cb * h + modl(-1) * t, tail, qa * 1 + qb * h + -1 * (na + nb * h), qt);
    lemma_decom_identity(dot(aa, ls, n), dot(ab, ls, n), dot(wa, ls, n), dot(wb, ls, n), ln, ao, ar, om, rr, e, h);
    lemma_modl_bound(0);
    assert(combination_is_identity(ss, ks));
}

/// The weights `l_k` against `C_k = g^{a_k} h^{b_k}`, over the first `j`
/// commitments, sum to the weighted openings.
proof fn lemma_weighted(ls: Seq<int>, ps: Seq<int>, a: Seq<int>, b: Seq<int>, j: int)
    requires
        0 <= j <= ls.len(),
        ls.len() == ps.len(),
        j <= a.len(),
        j <= b.len(),
        forall|k: int| 0 <= k < j ==> #[trigger] ps[k] == com_dlog(a[k], b[k]),
    ensures
        modl(lin_comb(ls.subrange(0, j), ps.subrange(0, j))) == modl(dot(a, ls, j) + h_dlog() * dot(b, ls, j)),
    decreases j,
{
    if j == 0 {
        lemma_modl_bound(0);
        assert(0 + h_dlog() * 0 == 0) by (nonlinear_arith);
    } else {
        lemma_weighted(ls, ps, a, b, j - 1);
        let l0 = ls.subrange(0, j);
        let p0 = ps.subrange(0, j);
        assert(l0.drop_last() =~= ls.subrange(0, j - 1));
        assert(p0.drop_last() =~= ps.subrange(0, j - 1));
        let l = ls[j - 1];
        let x = a[j - 1];
        let y = b[j - 1];
        let h = h_dlog();
        lemma_modl_idem(x + y * h);
        lemma_modl_mul_cong(l, ps[j - 1], l, x + y * h);
        lemma_modl_add_cong(
            lin_comb(ls.subrange(0, j - 1), ps.subrange(0, j - 1)),
            l * ps[j - 1],
            dot(a, ls, j - 1) + h * dot(b, ls, j - 1),
            l * (x + y * h),
        );
        assert(dot(a, ls, j - 1) + h * dot(b, ls, j - 1) + l * (x + y * h) == dot(a, ls, j) + h * dot(b, ls, j))
            by (nonlinear_arith)
            requires
                dot(a, ls, j) == dot(a, ls, j - 1) + x * l,
                dot(b, ls, j) == dot(b, ls, j - 1) + y * l,
        ;
    }
}

/// A combined response `z = r + e w` is the combined nonce plus `e` times the
/// combined witness.
proof fn lemma_combined_response(zs: Seq<int>, rs: Seq<int>, ws: Seq<int>, ls: Seq<int>, zl: int, rl: int, wl: int, e: int, m: int)
    requires
        0 <= m <= zs.len(),
        m <= rs.len(),
        m <= ws.len(),
        m < ls.len(),
        forall|k: int| 0 <= k < m ==> #[trigger] zs[k] == modl(rs[k] + e * ws[k]),
        zl == modl(rl + e * wl),
    ensures
        combined(zs, ls, zl, m) == modl(combined(rs, ls, rl, m) + modl(e * combined(ws, ls, wl, m))),
{
    assert forall|k: int| 0 <= k < m implies #[trigger] zs[k] == modl(rs[k] + modl(e * ws[k])) by {
        lemma_modl_add(rs[k], e * ws[k]);
    }
    lemma_dot_honest(zs, rs, ws, ls, e, m);
    lemma_combined(zs, ls, zl, m);
    lemma_combined(rs, ls, rl, m);
    lemma_combined(ws, ls, wl, m);
    let ln = ls[m];
    let big_a = dot(rs, ls, m) + ln * rl;
    let big_x = dot(ws, ls, m) + ln * wl;
    lemma_modl_idem(rl + e * wl);
    lemma_modl_mul_cong(ln, zl, ln, rl + e * wl);
    lemma_modl_add_cong(dot(zs, ls, m), ln * zl, dot(rs, ls, m) + e * dot(ws, ls, m), ln * (rl + e * wl));
    assert(dot(rs, ls, m) + e * dot(ws, ls, m) + ln * (rl + e * wl) == big_a + e * big_x) by (nonlinear_arith)
        requires
            big_a == dot(rs, ls, m) + ln * rl,
            big_x == dot(ws, ls, m) + ln * wl,
    ;
    let ax = combined(rs, ls, rl, m);
    let x = combined(ws, ls, wl, m);
    lemma_modl_idem(big_a);
    lemma_modl_idem(big_x);
    lemma_modl_mul_cong(e, x, e, big_x);
    lemma_modl_add_cong(ax, e * x, big_a, e * big_x);
    lemma_modl_add(ax, e * x);
    lemma_modl_idem(dot(zs, ls, m) + ln * zl);
}

/// An honest Fischlin decomposition proof verifies: when the witness opens
/// the statement, every round opens with some nonces under its challenge and
/// passes the score, and the parameters are in range, the verifier accepts.
pub proof fn lemma_decom_fischlin_complete(
    stmt: DecomStatement,
    wit: DecomWitness,
    proof: DecomFischlinProof,
    rho: int,
    b: int,
    t_bits: int,
)
    requires
        0 < stmt.pedvss@.len() < usize::MAX,
        rho > 0 && 1 <= b <= 31 && 1 <= t_bits <= 15 && b <= t_bits,
        decom_relation(stmt, wit),
        decom_fischlin_honest(stmt, wit, proof, rho, b, t_bits),
    ensures
        decom_fischlin_valid(stmt, proof, rho, b, t_bits),
{
    let m = stmt.pedvss@.len() as int;
    let ls = decom_fischlin_lambdas(stmt);
    let rs = proof.rounds@;
    let ch = decom_common_h(stmt, decom_round_ts(rs));
    let h = h_dlog();
    let wa = svals(wit.a@);
    let wb = svals(wit.b@);
    let om = wit.omega@;
    let wr = wit.r@;
    lemma_indexed_values_len(
        seq![
            crate::transcript::op_init("decom_fischlin_lambdas".spec_bytes()),
            crate::transcript::op_append("pedvss_len".spec_bytes(), crate::bytes::u64_le(m as u64)),
        ] + crate::two_round_proofs::decom_proof_fischlin::lambda_statement_ops(stmt.pedvss@, m) + seq![
            crate::transcript::op_append("D".spec_bytes(), crate::group::compressed_multiple(stmt.d@)),
        ],
        "lambda_idx".spec_bytes(),
        "lambda".spec_bytes(),
        m + 1,
    );
    assert(ls.len() == m + 1);
    // The combined statement element.
    let ps = com_dlogs(stmt.pedvss@) + seq![stmt.d@];
    assert forall|k: int| 0 <= k < m implies #[trigger] ps[k] == com_dlog(wa[k], wb[k]) by {
        assert(ps[k] == stmt.pedvss@[k]@);
    }
    lemma_weighted(ls, ps, wa, wb, m);
    let lm = ls.subrange(0, m);
    let pm = ps.subrange(0, m);
    assert(ls =~= lm + seq![ls[m]]);
    assert(ps =~= pm + seq![ps[m]]);
    lemma_lin_comb_append(lm, pm, seq![ls[m]], seq![ps[m]]);
    reveal_with_fuel(lin_comb, 2);
    assert(lin_comb(seq![ls[m]], seq![ps[m]]) == ls[m] * ps[m]);
    lemma_modl_idem(om + wr * h);
    lemma_modl_mul_cong(ls[m], ps[m], ls[m], om + wr * h);
    lemma_modl_add_cong(lin_comb(lm, pm), ls[m] * ps[m], dot(wa, ls, m) + h * dot(wb, ls, m), ls[m] * (om + wr * h));
    let c = pedvss_star(stmt, ls);
    let x = combined(wa, ls, om, m);
    let y = combined(wb, ls, wr, m);
    lemma_combined(wa, ls, om, m);
    lemma_combined(wb, ls, wr, m);
    let big_x = dot(wa, ls, m) + ls[m] * om;
    let big_y = dot(wb, ls, m) + ls[m] * wr;
    assert(dot(wa, ls, m) + h * dot(wb, ls, m) + ls[m] * (om + wr * h) == big_x + big_y * h) by (nonlinear_arith)
        requires
            big_x == dot(wa, ls, m) + ls[m] * om,
            big_y == dot(wb, ls, m) + ls[m] * wr,
    ;
    lemma_modl_idem(lin_comb(ls, ps));
    lemma_modl_idem(big_x);
    lemma_modl_idem(big_y);
    lemma_modl_mul_cong(y, h, big_y, h);
    lemma_modl_add_cong(x, y * h, big_x, big_y * h);
    assert(modl(c) == modl(x + y * h));
    assert forall|i: int| 0 <= i < rs.len() implies decom_round_shape(stmt, #[trigger] rs[i]) by {
        let r = rs[i];
        let (ra, rb, ro, rr) = choose|ra: Seq<int>, rb: Seq<int>, ro: int, rr: int|
            decom_round_opens(stmt, wit, r, ra, rb, ro, rr);
        assert(decom_round_opens(stmt, wit, r, ra, rb, ro, rr));
    }
    assert forall|i: int| 0 <= i < rs.len() implies decom_round_valid(stmt, ch, i, #[trigger] rs[i], ls, b, t_bits) by {
        let r = rs[i];
        let (ra, rb, ro, rr) = choose|ra: Seq<int>, rb: Seq<int>, ro: int, rr: int|
            decom_round_opens(stmt, wit, r, ra, rb, ro, rr);
        let e = r.e as int;
        let za = svals(r.z_a@);
        let zb = svals(r.z_b@);
        assert forall|k: int| 0 <= k < m implies #[trigger] za[k] == modl(ra[k] + e * wa[k]) by {
            assert(r.z_a@[k]@ == modl(ra[k] + r.e * wit.a@[k]@));
        }
        assert forall|k: int| 0 <= k < m implies #[trigger] zb[k] == modl(rb[k] + e * wb[k]) by {
            assert(r.z_b@[k]@ == modl(rb[k] + r.e * wit.b@[k]@));
        }
        lemma_combined_response(za, ra, wa, ls, r.z_omega@, ro, om, e, m);
        lemma_combined_response(zb, rb, wb, ls, r.z_r@, rr, wr, e, m);
        let ax = combined(ra, ls, ro, m);
        let ay = combined(rb, ls, rr, m);
        lemma_modl_idem(ax + ay * h);
        crate::two_round_proofs::lemma_sigma_eq2(
            combined(za, ls, r.z_omega@, m),
            combined(zb, ls, r.z_r@, m),
            r.t@,
            c,
            ax,
            ay,
            x,
            y,
            e,
            h,
        );
        crate::group::lemma_lin_comb4(
            seq![combined(za, ls, r.z_omega@, m), combined(zb, ls, r.z_r@, m), modl(-1), modl(-e)],
            seq![1, h, r.t@, c],
        );
        assert(sigma_holds(combined(za, ls, r.z_omega@, m), combined(zb, ls, r.z_r@, m), r.t@, c, e));
        reveal(decom_round_valid);
    }
}

} // verus!
