//! The rank-1 folded check shared by the well-formedness verifiers: every
//! Sigma equation of every round, weighted by `gamma_i * delta_j`, folded into
//! one multiscalar multiplication.

use crate::arith::{group_order, lemma_modl_bound, modl};
use crate::group::{compressed_multiple, dlogs, h_dlog, lin_comb, multiscalar_mul, svals, Point};
use crate::one_round_proofs::polyproof_schnorr::PolyWellFormedStatement;
use crate::pedersen::PedersenCommitment;
use crate::poly::{eval_poly_at, poly_eval};
use crate::scalar::Scalar;
use crate::transcript::{
    append_message, append_point, append_scalar, append_u64, op_append, transcript_contents,
    TranscriptOp,
};
use merlin::Transcript;
use vstd::prelude::*;
use vstd::string::StringSliceAdditionalSpecFns;

verus! {

/// One Sigma round to fold. Weights are supplied separately, shared across rounds.
pub struct RoundView<'a> {
    pub t_commitments: &'a [Point],
    pub challenge: Scalar,
    pub z_coeffs: &'a [Scalar],
    pub z_blindings: &'a [Scalar],
}

/// A round as the folded check reads it: the discrete logarithms of its
/// first-round commitments, its challenge, its coefficient responses and its
/// blinding responses.
pub type RoundData = (Seq<int>, int, Seq<int>, Seq<int>);

/// The values a round view holds.
pub open spec fn round_data(rv: RoundView) -> RoundData {
    (dlogs(rv.t_commitments@), rv.challenge@, svals(rv.z_coeffs@), svals(rv.z_blindings@))
}

/// The values of a sequence of round views.
pub open spec fn rounds_data(rs: Seq<RoundView>) -> Seq<RoundData> {
    rs.map_values(|rv: RoundView| round_data(rv))
}

/// The discrete logarithms of the committed elements of a statement.
pub open spec fn com_dlogs(cs: Seq<PedersenCommitment>) -> Seq<int> {
    cs.map_values(|c: PedersenCommitment| c@)
}

/// The lengths that the folded check demands.
pub open spec fn rank1_shape(
    stmt: PolyWellFormedStatement,
    rounds: Seq<RoundData>,
    nd: int,
    ng: int,
) -> bool {
    let n = stmt.x_points@.len();
    &&& nd == n + 1
    &&& ng == rounds.len()
    &&& forall|r: int|
        0 <= r < rounds.len() ==> (#[trigger] rounds[r]).0.len() == n + 1 && rounds[r].3.len() == n
            && rounds[r].2.len() == stmt.degree + 1
}

/// Coefficient `k` of the folded response polynomial after `r` rounds.
pub open spec fn zfold(rounds: Seq<RoundData>, g: Seq<int>, k: int, r: int) -> int
    decreases r,
{
    if r <= 0 {
        0
    } else {
        modl(zfold(rounds, g, k, r - 1) + modl(g[r - 1] * rounds[r - 1].2[k]))
    }
}

/// Blinding `k` of the folded responses after `r` rounds.
pub open spec fn bfold(rounds: Seq<RoundData>, g: Seq<int>, k: int, r: int) -> int
    decreases r,
{
    if r <= 0 {
        0
    } else {
        modl(bfold(rounds, g, k, r - 1) + modl(g[r - 1] * rounds[r - 1].3[k]))
    }
}

/// The folded challenge after `r` rounds.
pub open spec fn efold(rounds: Seq<RoundData>, g: Seq<int>, r: int) -> int
    decreases r,
{
    if r <= 0 {
        0
    } else {
        modl(efold(rounds, g, r - 1) + modl(g[r - 1] * rounds[r - 1].1))
    }
}

/// The folded response polynomial.
pub open spec fn zhat(rounds: Seq<RoundData>, g: Seq<int>, degree: int) -> Seq<int> {
    Seq::new((degree + 1) as nat, |k: int| zfold(rounds, g, k, rounds.len() as int))
}

/// The scalar on `g` after the first `j` evaluation points.
pub open spec fn g_acc(x: Seq<int>, zh: Seq<int>, d: Seq<int>, j: int) -> int
    decreases j,
{
    if j <= 0 {
        modl(d[0] * zh[0])
    } else {
        modl(g_acc(x, zh, d, j - 1) + modl(d[j] * poly_eval(zh, x[j - 1])))
    }
}

/// The scalar on `h` after the first `j` evaluation points.
pub open spec fn h_acc(rounds: Seq<RoundData>, g: Seq<int>, d: Seq<int>, j: int) -> int
    decreases j,
{
    if j <= 0 {
        0
    } else {
        modl(h_acc(rounds, g, d, j - 1) + modl(d[j] * bfold(rounds, g, j - 1, rounds.len() as int)))
    }
}

/// The weights `gamma_r * delta_j` on the first-round commitments, round by
/// round, for the first `r` rounds and then `j` equations of round `r`.
pub open spec fn t_scalars(g: Seq<int>, d: Seq<int>, r: int, j: int) -> Seq<int>
    decreases r, j,
{
    if j <= 0 {
        if r <= 0 {
            Seq::empty()
        } else {
            t_scalars(g, d, r - 1, d.len() as int)
        }
    } else {
        t_scalars(g, d, r, j - 1).push(modl(g[r] * d[j - 1]))
    }
}

/// The first-round commitments in the same order.
pub open spec fn t_points(rounds: Seq<RoundData>, nd: int, r: int, j: int) -> Seq<int>
    decreases r, j,
{
    if j <= 0 {
        if r <= 0 {
            Seq::empty()
        } else {
            t_points(rounds, nd, r - 1, nd)
        }
    } else {
        t_points(rounds, nd, r, j - 1).push(rounds[r].0[j - 1])
    }
}

/// The weights `delta_j * e_fold` on the statement's elements, first `j` of them.
pub open spec fn s_scalars(d: Seq<int>, e: int, j: int) -> Seq<int>
    decreases j,
{
    if j <= 0 {
        Seq::empty()
    } else {
        s_scalars(d, e, j - 1).push(modl(d[j - 1] * e))
    }
}

/// `f0` followed by the first `j - 1` commitments.
pub open spec fn s_points(f0: int, cs: Seq<int>, j: int) -> Seq<int>
    decreases j,
{
    if j <= 0 {
        Seq::empty()
    } else if j == 1 {
        seq![f0]
    } else {
        s_points(f0, cs, j - 1).push(cs[j - 2])
    }
}

/// All scalars of the folded multiscalar check.
pub open spec fn rank1_scalars(stmt: PolyWellFormedStatement, rounds: Seq<RoundData>, d: Seq<int>, g: Seq<int>) -> Seq<int> {
    let n = stmt.x_points@.len() as int;
    let zh = zhat(rounds, g, stmt.degree as int);
    let e = efold(rounds, g, rounds.len() as int);
    t_scalars(g, d, rounds.len() as int, 0) + s_scalars(d, e, n + 1) + seq![
        modl(-g_acc(svals(stmt.x_points@), zh, d, n)),
        modl(-h_acc(rounds, g, d, n)),
    ]
}

/// All elements of the folded multiscalar check.
pub open spec fn rank1_points(stmt: PolyWellFormedStatement, rounds: Seq<RoundData>) -> Seq<int> {
    let n = stmt.x_points@.len() as int;
    t_points(rounds, n + 1, rounds.len() as int, 0) + s_points(
        stmt.f0_commitment@,
        com_dlogs(stmt.commitments@),
        n + 1,
    ) + seq![1int, h_dlog()]
}

/// The folded check: right lengths, and the multiscalar multiplication gives
/// the neutral element.
pub open spec fn rank1_check(stmt: PolyWellFormedStatement, rounds: Seq<RoundData>, d: Seq<int>, g: Seq<int>) -> bool {
    &&& rank1_shape(stmt, rounds, d.len() as int, g.len() as int)
    &&& modl(lin_comb(rank1_scalars(stmt, rounds, d, g), rank1_points(stmt, rounds))) == 0
}

/// Folds equation `j` of round `i` with weight `gammas[i] * deltas[j]` into
/// one multiscalar check. Both weight vectors are derived after the whole proof.
#[verifier::rlimit(40)]
pub fn batched_point_check_rank1(
    statement: &PolyWellFormedStatement,
    rounds: &[RoundView],
    deltas: &[Scalar],
    gammas: &[Scalar],
) -> (r: bool)
    requires
        statement.commitments@.len() >= statement.x_points@.len(),
        statement.x_points@.len() < usize::MAX,
        statement.degree < usize::MAX,
    ensures
        r == rank1_check(*statement, rounds_data(rounds@), svals(deltas@), svals(gammas@)),
{
    let n = statement.x_points.len();
    let degree = statement.degree;
    let ghost d = svals(deltas@);
    let ghost g = svals(gammas@);
    let ghost rs = rounds_data(rounds@);
    if deltas.len() != n + 1 || gammas.len() != rounds.len() {
        return false;
    }
    let mut ri: usize = 0;
    while ri < rounds.len()
        invariant
            ri <= rounds@.len(),
            n == statement.x_points@.len(),
            n < usize::MAX,
            degree < usize::MAX,
            degree == statement.degree,
            rs == rounds_data(rounds@),
            forall|q: int|
                0 <= q < ri ==> (#[trigger] rounds@[q]).t_commitments@.len() == n + 1
                    && rounds@[q].z_blindings@.len() == n && rounds@[q].z_coeffs@.len() == degree
                    + 1,
        decreases rounds@.len() - ri,
    {
        let rv = &rounds[ri];
        if rv.t_commitments.len() != n + 1 || rv.z_blindings.len() != n || rv.z_coeffs.len()
            != degree + 1 {
            proof {
                assert(rs[ri as int] == round_data(rounds@[ri as int]));
            }
            return false;
        }
        ri = ri + 1;
    }
    assert(rank1_shape(*statement, rs, d.len() as int, g.len() as int));
    // Fold the rounds coefficient-wise, so the multipoint evaluation runs once.
    let mut zh: Vec<Scalar> = Vec::new();
    let mut k: usize = 0;
    while k < degree + 1
        invariant
            k <= degree + 1,
            degree < usize::MAX,
            zh@.len() == k,
            forall|q: int| 0 <= q < k ==> (#[trigger] zh@[q])@ == 0,
        decreases degree + 1 - k,
    {
        zh.push(Scalar::zero());
        k = k + 1;
    }
    let mut bh: Vec<Scalar> = Vec::new();
    let mut k: usize = 0;
    while k < n
        invariant
            k <= n,
            bh@.len() == k,
            forall|q: int| 0 <= q < k ==> (#[trigger] bh@[q])@ == 0,
        decreases n - k,
    {
        bh.push(Scalar::zero());
        k = k + 1;
    }
    let mut e_fold = Scalar::zero();
    let mut ri: usize = 0;
    while ri < rounds.len()
        invariant
            ri <= rounds@.len(),
            rs == rounds_data(rounds@),
            g == svals(gammas@),
            gammas@.len() == rounds@.len(),
            rank1_shape(*statement, rs, d.len() as int, g.len() as int),
            n == statement.x_points@.len(),
            degree == statement.degree,
            degree < usize::MAX,
            zh@.len() == degree + 1,
            bh@.len() == n,
            forall|q: int| 0 <= q <= degree ==> (#[trigger] zh@[q])@ == zfold(rs, g, q, ri as int),
            forall|q: int| 0 <= q < n ==> (#[trigger] bh@[q])@ == bfold(rs, g, q, ri as int),
            e_fold@ == efold(rs, g, ri as int),
        decreases rounds@.len() - ri,
    {
        let rv = &rounds[ri];
        let gamma = &gammas[ri];
        assert(rs[ri as int] == round_data(rounds@[ri as int]));
        let mut k: usize = 0;
        while k < degree + 1
            invariant
                k <= degree + 1,
                degree < usize::MAX,
                ri < rs.len(),
                rs[ri as int] == round_data(*rv),
                rs == rounds_data(rounds@),
                *rv == rounds@[ri as int],
                rs[ri as int] == round_data(*rv),
                g == svals(gammas@),
                gamma == gammas@[ri as int],
                gammas@.len() == rounds@.len(),
                rv.z_coeffs@.len() == degree + 1,
                zh@.len() == degree + 1,
                forall|q: int| 0 <= q < k ==> (#[trigger] zh@[q])@ == zfold(rs, g, q, ri + 1),
                forall|q: int| k <= q <= degree ==> (#[trigger] zh@[q])@ == zfold(rs, g, q, ri as int),
            decreases degree + 1 - k,
        {
            let prod = gamma.mul(&rv.z_coeffs[k]);
            let v = zh[k].add(&prod);
            zh.set(k, v);
            k = k + 1;
        }
        let mut k: usize = 0;
        while k < n
            invariant
                k <= n,
                ri < rs.len(),
                rs[ri as int] == round_data(*rv),
                rs == rounds_data(rounds@),
                *rv == rounds@[ri as int],
                rs[ri as int] == round_data(*rv),
                g == svals(gammas@),
                gamma == gammas@[ri as int],
                gammas@.len() == rounds@.len(),
                rv.z_blindings@.len() == n,
                bh@.len() == n,
                forall|q: int| 0 <= q < k ==> (#[trigger] bh@[q])@ == bfold(rs, g, q, ri + 1),
                forall|q: int| k <= q < n ==> (#[trigger] bh@[q])@ == bfold(rs, g, q, ri as int),
            decreases n - k,
        {
            let prod = gamma.mul(&rv.z_blindings[k]);
            let v = bh[k].add(&prod);
            bh.set(k, v);
            k = k + 1;
        }
        let ge = gamma.mul(&rv.challenge);
        e_fold = e_fold.add(&ge);
        ri = ri + 1;
    }
    proof {
        assert(svals(zh@) =~= zhat(rs, g, degree as int));
    }
    let ghost zhs = svals(zh@);
    let ghost xs = svals(statement.x_points@);
    let mut g_scalar = deltas[0].mul(&zh[0]);
    let mut h_scalar = Scalar::zero();
    let mut j: usize = 0;
    while j < n
        invariant
            j <= n,
            n == statement.x_points@.len(),
            deltas@.len() == n + 1,
            d == svals(deltas@),
            xs == svals(statement.x_points@),
            zhs == svals(zh@),
            zh@.len() == degree + 1,
            bh@.len() == n,
            forall|q: int| 0 <= q < n ==> (#[trigger] bh@[q])@ == bfold(rs, g, q, rs.len() as int),
            g_scalar@ == g_acc(xs, zhs, d, j as int),
            h_scalar@ == h_acc(rs, g, d, j as int),
        decreases n - j,
    {
        let zx = eval_poly_at(zh.as_slice(), statement.x_points[j]);
        let t1 = deltas[j + 1].mul(&zx);
        g_scalar = g_scalar.add(&t1);
        let t2 = deltas[j + 1].mul(&bh[j]);
        h_scalar = h_scalar.add(&t2);
        j = j + 1;
    }
    let mut scalars: Vec<Scalar> = Vec::new();
    let mut points: Vec<Point> = Vec::new();
    let mut ri: usize = 0;
    while ri < rounds.len()
        invariant
            ri <= rounds@.len(),
            rs == rounds_data(rounds@),
            g == svals(gammas@),
            d == svals(deltas@),
            deltas@.len() == n + 1,
            gammas@.len() == rounds@.len(),
            rank1_shape(*statement, rs, d.len() as int, g.len() as int),
            n == statement.x_points@.len(),
            n < usize::MAX,
            scalars@.len() == points@.len(),
            svals(scalars@) == t_scalars(g, d, ri as int, 0),
            dlogs(points@) == t_points(rs, n + 1, ri as int, 0),
        decreases rounds@.len() - ri,
    {
        let rv = &rounds[ri];
        let gamma = &gammas[ri];
        assert(rs[ri as int] == round_data(rounds@[ri as int]));
        let mut j: usize = 0;
        while j < n + 1
            invariant
                j <= n + 1,
                n < usize::MAX,
                scalars@.len() == points@.len(),
                ri < rs.len(),
                rs[ri as int] == round_data(*rv),
                rs == rounds_data(rounds@),
                *rv == rounds@[ri as int],
                rs[ri as int] == round_data(*rv),
                g == svals(gammas@),
                d == svals(deltas@),
                gamma == gammas@[ri as int],
                deltas@.len() == n + 1,
                gammas@.len() == rounds@.len(),
                rv.t_commitments@.len() == n + 1,
                svals(scalars@) == t_scalars(g, d, ri as int, j as int),
                dlogs(points@) == t_points(rs, n + 1, ri as int, j as int),
            decreases n + 1 - j,
        {
            let w = gamma.mul(&deltas[j]);
            let ghost s0 = scalars@;
            let ghost p0 = points@;
            scalars.push(w);
            points.push(rv.t_commitments[j]);
            proof {
                assert(svals(scalars@) =~= svals(s0).push(w@));
                assert(dlogs(points@) =~= dlogs(p0).push(rv.t_commitments@[j as int]@));
            }
            j = j + 1;
        }
        ri = ri + 1;
    }
    let ghost tl_s = svals(scalars@);
    let ghost tl_p = dlogs(points@);
    let mut tail_s: Vec<Scalar> = Vec::new();
    let mut tail_p: Vec<Point> = Vec::new();
    let ghost e = e_fold@;
    let ghost cs = com_dlogs(statement.commitments@);
    let mut j: usize = 0;
    while j < n + 1
        invariant
            j <= n + 1,
            n == statement.x_points@.len(),
            n < usize::MAX,
            tail_s@.len() == tail_p@.len(),
            statement.commitments@.len() >= n,
            deltas@.len() == n + 1,
            d == svals(deltas@),
            e == e_fold@,
            cs == com_dlogs(statement.commitments@),
            svals(tail_s@) == s_scalars(d, e, j as int),
            dlogs(tail_p@) == s_points(statement.f0_commitment@, cs, j as int),
        decreases n + 1 - j,
    {
        let w = deltas[j].mul(&e_fold);
        let ghost s0 = tail_s@;
        let ghost p0 = tail_p@;
        tail_s.push(w);
        if j == 0 {
            tail_p.push(statement.f0_commitment);
        } else {
            tail_p.push(*statement.commitments[j - 1].point());
        }
        proof {
            assert(svals(tail_s@) =~= svals(s0).push(w@));
            if j == 0 {
                assert(dlogs(tail_p@) =~= seq![statement.f0_commitment@]);
            } else {
                assert(dlogs(tail_p@) =~= dlogs(p0).push(cs[j - 1]));
            }
        }
        j = j + 1;
    }
    let ghost s1 = svals(tail_s@);
    let ghost p1 = dlogs(tail_p@);
    let ng = g_scalar.neg();
    let nh = h_scalar.neg();
    let mut all_s: Vec<Scalar> = Vec::new();
    let mut all_p: Vec<Point> = Vec::new();
    all_s.append(&mut scalars);
    all_s.append(&mut tail_s);
    all_s.push(ng);
    all_s.push(nh);
    all_p.append(&mut points);
    all_p.append(&mut tail_p);
    all_p.push(Point::generator());
    all_p.push(Point::pedersen_h());
    proof {
        assert(svals(all_s@) =~= tl_s + s1 + seq![ng@, nh@]);
        assert(dlogs(all_p@) =~= tl_p + p1 + seq![1int, h_dlog()]);
        assert(tl_s + s1 + seq![ng@, nh@] == rank1_scalars(*statement, rs, d, g));
    }
    let total = multiscalar_mul(all_s.as_slice(), all_p.as_slice());
    let id = Point::identity();
    total.equals(&id)
}

/// The transcript entries of the evaluation points: index, then encoding.
pub open spec fn x_ops(xs: Seq<Scalar>, j: int) -> Seq<TranscriptOp>
    decreases j,
{
    if j <= 0 {
        Seq::empty()
    } else {
        x_ops(xs, j - 1) + seq![
            op_append("x_index".spec_bytes(), vstd::bytes::spec_u64_to_le_bytes((j - 1) as u64)),
            op_append("x".spec_bytes(), xs[j - 1].spec_encoding()),
        ]
    }
}

/// The transcript entries of the commitments: index, then encoding.
pub open spec fn c_ops(cs: Seq<PedersenCommitment>, j: int) -> Seq<TranscriptOp>
    decreases j,
{
    if j <= 0 {
        Seq::empty()
    } else {
        c_ops(cs, j - 1) + seq![
            op_append("c_index".spec_bytes(), vstd::bytes::spec_u64_to_le_bytes((j - 1) as u64)),
            op_append("commitment".spec_bytes(), compressed_multiple(cs[j - 1]@)),
        ]
    }
}

/// What absorbing a statement appends to a transcript.
pub open spec fn statement_ops(stmt: PolyWellFormedStatement) -> Seq<TranscriptOp> {
    let n = stmt.x_points@.len() as int;
    seq![
        op_append("dom-sep".spec_bytes(), "poly-well-formedness".spec_bytes()),
        op_append("degree".spec_bytes(), vstd::bytes::spec_u64_to_le_bytes(stmt.degree as u64)),
        op_append("f0_commitment".spec_bytes(), stmt.f0_commitment.enc()),
        op_append("n".spec_bytes(), vstd::bytes::spec_u64_to_le_bytes(n as u64)),
    ] + x_ops(stmt.x_points@, n) + c_ops(stmt.commitments@, stmt.commitments@.len() as int)
}

/// Absorbs the statement: its degree, `f0`, the evaluation points and the
/// commitments, each under its own label and index.
pub fn append_statement_to_transcript(transcript: &mut Transcript, statement: &PolyWellFormedStatement)
    ensures
        transcript_contents(*final(transcript)) == transcript_contents(*old(transcript))
            + statement_ops(*statement),
{
    let ghost h0 = transcript_contents(*transcript);
    let dom = "poly-well-formedness";
    proof {
        reveal_strlit("poly-well-formedness");
        assert(vstd::string::is_ascii(dom));
        vstd::string::is_ascii_spec_bytes(dom);
    }
    append_message(transcript, "dom-sep", dom.as_bytes());
    append_u64(transcript, "degree", statement.degree as u64);
    append_point(transcript, "f0_commitment", &statement.f0_commitment);
    append_u64(transcript, "n", statement.x_points.len() as u64);
    let ghost h1 = transcript_contents(*transcript);
    assert(h1 == h0 + seq![
        op_append("dom-sep".spec_bytes(), "poly-well-formedness".spec_bytes()),
        op_append("degree".spec_bytes(), vstd::bytes::spec_u64_to_le_bytes(statement.degree as u64)),
        op_append("f0_commitment".spec_bytes(), statement.f0_commitment.enc()),
        op_append("n".spec_bytes(), vstd::bytes::spec_u64_to_le_bytes(statement.x_points@.len() as u64)),
    ]);
    let mut i: usize = 0;
    while i < statement.x_points.len()
        invariant
            i <= statement.x_points@.len(),
            transcript_contents(*transcript) == h1 + x_ops(statement.x_points@, i as int),
        decreases statement.x_points@.len() - i,
    {
        let ib = vstd::bytes::u64_to_le_bytes(i as u64);
        append_message(transcript, "x_index", ib.as_slice());
        append_scalar(transcript, "x", &statement.x_points[i]);
        proof {
            assert(transcript_contents(*transcript) =~= h1 + x_ops(statement.x_points@, i + 1));
        }
        i = i + 1;
    }
    let ghost h2 = transcript_contents(*transcript);
    let mut i: usize = 0;
    while i < statement.commitments.len()
        invariant
            i <= statement.commitments@.len(),
            transcript_contents(*transcript) == h2 + c_ops(statement.commitments@, i as int),
        decreases statement.commitments@.len() - i,
    {
        let ib = vstd::bytes::u64_to_le_bytes(i as u64);
        append_message(transcript, "c_index", ib.as_slice());
        append_point(transcript, "commitment", statement.commitments[i].point());
        proof {
            assert(transcript_contents(*transcript) =~= h2 + c_ops(statement.commitments@, i + 1));
        }
        i = i + 1;
    }
    proof {
        assert(transcript_contents(*transcript) =~= h0 + statement_ops(*statement));
    }
}

/// The entries of absorbing the first `j` elements under one label.
pub open spec fn point_ops(label: Seq<u8>, ps: Seq<Point>, j: int) -> Seq<TranscriptOp>
    decreases j,
{
    if j <= 0 {
        Seq::empty()
    } else {
        point_ops(label, ps, j - 1).push(op_append(label, ps[j - 1].enc()))
    }
}

/// The entries of absorbing the first `j` scalars under one label.
pub open spec fn scalar_ops(label: Seq<u8>, ss: Seq<Scalar>, j: int) -> Seq<TranscriptOp>
    decreases j,
{
    if j <= 0 {
        Seq::empty()
    } else {
        scalar_ops(label, ss, j - 1).push(op_append(label, ss[j - 1].spec_encoding()))
    }
}

/// Absorbs every element of `ps` under `label`.
pub fn append_points(t: &mut Transcript, label: &'static str, ps: &[Point])
    ensures
        transcript_contents(*final(t)) == transcript_contents(*old(t)) + point_ops(
            label.spec_bytes(),
            ps@,
            ps@.len() as int,
        ),
{
    let ghost h0 = transcript_contents(*t);
    let mut i: usize = 0;
    while i < ps.len()
        invariant
            i <= ps@.len(),
            transcript_contents(*t) == h0 + point_ops(label.spec_bytes(), ps@, i as int),
        decreases ps@.len() - i,
    {
        append_point(t, label, &ps[i]);
        proof {
            assert(transcript_contents(*t) =~= h0 + point_ops(label.spec_bytes(), ps@, i + 1));
        }
        i = i + 1;
    }
}

/// Absorbs every scalar of `ss` under `label`.
pub fn append_scalars(t: &mut Transcript, label: &'static str, ss: &[Scalar])
    ensures
        transcript_contents(*final(t)) == transcript_contents(*old(t)) + scalar_ops(
            label.spec_bytes(),
            ss@,
            ss@.len() as int,
        ),
{
    let ghost h0 = transcript_contents(*t);
    let mut i: usize = 0;
    while i < ss.len()
        invariant
            i <= ss@.len(),
            transcript_contents(*t) == h0 + scalar_ops(label.spec_bytes(), ss@, i as int),
        decreases ss@.len() - i,
    {
        append_scalar(t, label, &ss[i]);
        proof {
            assert(transcript_contents(*t) =~= h0 + scalar_ops(label.spec_bytes(), ss@, i + 1));
        }
        i = i + 1;
    }
}

} // verus!
