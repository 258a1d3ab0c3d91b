//! Why honest parties pass round two: the summed commitment polynomial
//! evaluated at a party's point opens to the shares that party summed.

use crate::arith::{lemma_modl_add, lemma_modl_add_cong, lemma_modl_idem, lemma_modl_mul_cong, modl};
use crate::group::h_dlog;
use crate::one_round_proofs::utils::com_dlogs;
use crate::pedersen::com_dlog;
use crate::poly::poly_eval;
use crate::party::PartyState;
use crate::pedersen::PedersenCommitment;
use crate::scalar::Scalar;
use crate::two_round::{
    all_pairs_open, coeff_sum, coeff_sums, lemma_poly_sum_is_pow_sum, pair_sum, pow_sum, received_pair, round1_dealt,
    round2_from, round2_msg_ok, Round1Broadcast, Round1LocalState, Round2Broadcast,
    Round2LocalState, VerifiedRound1Info,
};
use crate::two_round_proofs::comeq_proof::{
    comeq_challenge, comeq_honest, comeq_relation, comeq_statement_ops, comeq_valid,
    lemma_comeq_complete, ComEqStatement, ComEqWitness,
};
use crate::two_round_proofs::pk_proof::{lemma_pk_complete, pk_honest, pk_relation, PkStatement, PkWitness};
use vstd::arithmetic::power::pow;
use vstd::prelude::*;

verus! {

/// The sum of every broadcast's commitment polynomial evaluated at `x`,
/// over the first `j` broadcasts, reduced at every step.
pub open spec fn eval_sum<P>(msgs: Seq<Round1Broadcast<P>>, x: int, len: int, j: int) -> int
    decreases j,
{
    if j <= 0 {
        0
    } else {
        modl(eval_sum(msgs, x, len, j - 1) + modl(pow_sum(com_dlogs(msgs[j - 1].pedvss@), x, len)))
    }
}

/// Some broadcast among the first `j` comes from `my`.
pub open spec fn own_in<P>(msgs: Seq<Round1Broadcast<P>>, my: usize, j: int) -> bool {
    exists|i: int| 0 <= i < j && #[trigger] msgs[i].dealer_idx == my
}

/// Evaluation is linear in the coefficients.
proof fn lemma_pow_sum_add(a: Seq<int>, b: Seq<int>, c: Seq<int>, x: int, m: int)
    requires
        0 <= m,
        forall|k: int| 0 <= k < m ==> #[trigger] c[k] == modl(a[k] + b[k]),
    ensures
        modl(pow_sum(c, x, m)) == modl(pow_sum(a, x, m) + pow_sum(b, x, m)),
    decreases m,
{
    if m > 0 {
        lemma_pow_sum_add(a, b, c, x, m - 1);
        let xp = pow(x, (m - 1) as nat);
        let pa = pow_sum(a, x, m - 1);
        let pb = pow_sum(b, x, m - 1);
        let pc = pow_sum(c, x, m - 1);
        assert(c[m - 1] == modl(a[m - 1] + b[m - 1]));
        lemma_modl_idem(a[m - 1] + b[m - 1]);
        lemma_modl_mul_cong(c[m - 1], xp, a[m - 1] + b[m - 1], xp);
        lemma_modl_add_cong(pc, c[m - 1] * xp, pa + pb, (a[m - 1] + b[m - 1]) * xp);
        assert((a[m - 1] + b[m - 1]) * xp == a[m - 1] * xp + b[m - 1] * xp) by (nonlinear_arith);
        assert(pa + pb + (a[m - 1] * xp + b[m - 1] * xp) == (pa + a[m - 1] * xp) + (pb + b[m - 1] * xp));
    }
}

/// A polynomial with zero coefficients evaluates to zero.
pub(crate) proof fn lemma_pow_sum_zero(c: Seq<int>, x: int, m: int)
    requires
        0 <= m,
        forall|k: int| 0 <= k < m ==> #[trigger] c[k] == 0,
    ensures
        pow_sum(c, x, m) == 0,
    decreases m,
{
    if m > 0 {
        lemma_pow_sum_zero(c, x, m - 1);
        assert(c[m - 1] == 0);
        assert(c[m - 1] * pow(x, (m - 1) as nat) == 0);
    }
}

/// The summed coefficients of the first `j` broadcasts, as a polynomial.
spec fn partial_sums<P>(msgs: Seq<Round1Broadcast<P>>, len: int, j: int) -> Seq<int> {
    Seq::new(len as nat, |k: int| coeff_sum(msgs, k, j))
}

/// Evaluating the summed polynomial is summing the evaluations.
proof fn lemma_eval_of_sum<P>(msgs: Seq<Round1Broadcast<P>>, x: int, len: int, j: int)
    requires
        0 <= len,
        0 <= j <= msgs.len(),
        forall|i: int| 0 <= i < msgs.len() ==> (#[trigger] msgs[i]).pedvss@.len() == len,
    ensures
        modl(pow_sum(partial_sums(msgs, len, j), x, len)) == eval_sum(msgs, x, len, j),
    decreases j,
{
    if j == 0 {
        lemma_pow_sum_zero(partial_sums(msgs, len, 0), x, len);
    } else {
        lemma_eval_of_sum(msgs, x, len, j - 1);
        let prev = partial_sums(msgs, len, j - 1);
        let p = com_dlogs(msgs[j - 1].pedvss@);
        let cur = partial_sums(msgs, len, j);
        assert forall|k: int| 0 <= k < len implies #[trigger] cur[k] == modl(prev[k] + p[k]) by {
            assert(msgs[j - 1].pedvss@.len() == len);
        }
        lemma_pow_sum_add(prev, p, cur, x, len);
        lemma_modl_idem(pow_sum(prev, x, len));
        lemma_modl_idem(pow_sum(p, x, len));
        lemma_modl_add_cong(
            pow_sum(prev, x, len),
            pow_sum(p, x, len),
            modl(pow_sum(prev, x, len)),
            modl(pow_sum(p, x, len)),
        );
    }
}

/// Adding two commitments adds their openings, whatever the reductions.
proof fn lemma_com_dlog_sum(a: int, b: int, x: int, y: int)
    ensures
        modl(com_dlog(a, b) + com_dlog(x, y)) == com_dlog(modl(a + x), modl(b + y)),
{
    crate::pedersen::lemma_pedersen_homomorphic(a, b, x, y);
    let h = h_dlog();
    lemma_modl_idem(a + x);
    lemma_modl_idem(b + y);
    lemma_modl_mul_cong(modl(b + y), h, b + y, h);
    lemma_modl_add_cong(modl(a + x), modl(b + y) * h, a + x, (b + y) * h);
}

proof fn lemma_eval_sum_opens<P>(
    sk: int,
    msgs: Seq<Round1Broadcast<P>>,
    my: usize,
    len: int,
    a0: int,
    b0: int,
    j: int,
)
    requires
        0 <= j <= msgs.len(),
        forall|i: int, k: int|
            0 <= i < k < msgs.len() && msgs[i].dealer_idx == my ==> msgs[k].dealer_idx != my,
        forall|i: int| 0 <= i < msgs.len() ==> (#[trigger] msgs[i]).pedvss@.len() == len,
        all_pairs_open(sk, msgs, my),
        forall|i: int|
            0 <= i < msgs.len() && (#[trigger] msgs[i]).dealer_idx == my ==> modl(
                pow_sum(com_dlogs(msgs[i].pedvss@), my as int, len),
            ) == com_dlog(a0, b0),
    ensures
        own_in(msgs, my, j) ==> eval_sum(msgs, my as int, len, j) == com_dlog(
            pair_sum(sk, msgs, my, j, a0, 0),
            pair_sum(sk, msgs, my, j, b0, 1),
        ),
        !own_in(msgs, my, j) ==> modl(eval_sum(msgs, my as int, len, j) + com_dlog(a0, b0)) == com_dlog(
            pair_sum(sk, msgs, my, j, a0, 0),
            pair_sum(sk, msgs, my, j, b0, 1),
        ),
    decreases j,
{
    if j == 0 {
        lemma_modl_idem(a0 + b0 * h_dlog());
    } else {
        lemma_eval_sum_opens(sk, msgs, my, len, a0, b0, j - 1);
        let m = msgs[j - 1];
        let ev = eval_sum(msgs, my as int, len, j - 1);
        let term = modl(pow_sum(com_dlogs(m.pedvss@), my as int, len));
        let ra = pair_sum(sk, msgs, my, j - 1, a0, 0);
        let rb = pair_sum(sk, msgs, my, j - 1, b0, 1);
        let c0 = com_dlog(a0, b0);
        if m.dealer_idx != my {
            let x = received_pair(sk, msgs, my, j - 1);
            assert(term == com_dlog(x.0, x.1));
            lemma_com_dlog_sum(ra, rb, x.0, x.1);
            assert(own_in(msgs, my, j) == own_in(msgs, my, j - 1)) by {
                if own_in(msgs, my, j) {
                    let i = choose|i: int| 0 <= i < j && #[trigger] msgs[i].dealer_idx == my;
                    assert(i != j - 1);
                }
            }
            if !own_in(msgs, my, j - 1) {
                lemma_modl_add(ev + term, c0);
                lemma_modl_add(ev + c0, term);
                lemma_modl_add_cong(ev + c0, term, modl(ev + c0), term);
                lemma_modl_idem(ev + c0);
            }
        } else {
            assert(!own_in(msgs, my, j - 1)) by {
                if own_in(msgs, my, j - 1) {
                    let i = choose|i: int| 0 <= i < j - 1 && #[trigger] msgs[i].dealer_idx == my;
                    assert(msgs[j - 1].dealer_idx != my);
                }
            }
            assert(msgs[j - 1].dealer_idx == my);
            assert(own_in(msgs, my, j));
        }
    }
}

/// A party's point on the summed commitment polynomial opens to the shares
/// it summed: when every round-one broadcast holds `t + 1` commitments,
/// exactly one broadcast comes from this party and its kept pair opens its
/// own commitment polynomial at its point, and every other dealer's pair
/// opens that dealer's polynomial at the same point, then
/// `C*_i = g^{s_i} h^{s'_i}` for the summed share `s_i` and blinding `s'_i`.
pub proof fn lemma_cstar_opens_summed_shares<P>(
    sk: int,
    msgs: Seq<Round1Broadcast<P>>,
    my: usize,
    t: int,
    a0: int,
    b0: int,
)
    requires
        0 <= t,
        forall|i: int| 0 <= i < msgs.len() ==> (#[trigger] msgs[i]).pedvss@.len() == t + 1,
        exists|i: int| 0 <= i < msgs.len() && #[trigger] msgs[i].dealer_idx == my,
        forall|i: int, k: int|
            0 <= i < k < msgs.len() && msgs[i].dealer_idx == my ==> msgs[k].dealer_idx != my,
        all_pairs_open(sk, msgs, my),
        forall|i: int|
            0 <= i < msgs.len() && (#[trigger] msgs[i]).dealer_idx == my ==> modl(
                pow_sum(com_dlogs(msgs[i].pedvss@), my as int, t + 1),
            ) == com_dlog(a0, b0),
    ensures
        modl(pow_sum(coeff_sums(msgs, t), my as int, t + 1)) == com_dlog(
            pair_sum(sk, msgs, my, msgs.len() as int, a0, 0),
            pair_sum(sk, msgs, my, msgs.len() as int, b0, 1),
        ),
{
    let n = msgs.len() as int;
    lemma_eval_of_sum(msgs, my as int, t + 1, n);
    assert(coeff_sums(msgs, t) =~= partial_sums(msgs, t + 1, n));
    lemma_eval_sum_opens(sk, msgs, my, t + 1, a0, b0, n);
    assert(own_in(msgs, my, n));
}

/// Evaluating commitments to coefficient pairs commits to the evaluations.
proof fn lemma_pow_sum_commitments(cs: Seq<int>, f: Seq<int>, fp: Seq<int>, x: int, m: int)
    requires
        0 <= m,
        forall|k: int| 0 <= k < m ==> #[trigger] cs[k] == com_dlog(f[k], fp[k]),
    ensures
        modl(pow_sum(cs, x, m)) == com_dlog(pow_sum(f, x, m), pow_sum(fp, x, m)),
    decreases m,
{
    let h = h_dlog();
    if m == 0 {
        assert(modl(0) == 0);
        assert(0 + 0 * h == 0);
    } else {
        lemma_pow_sum_commitments(cs, f, fp, x, m - 1);
        let xp = pow(x, (m - 1) as nat);
        let pc = pow_sum(cs, x, m - 1);
        let pf = pow_sum(f, x, m - 1);
        let pfp = pow_sum(fp, x, m - 1);
        let fk = f[m - 1];
        let gk = fp[m - 1];
        assert(cs[m - 1] == com_dlog(fk, gk));
        lemma_modl_idem(fk + gk * h);
        lemma_modl_mul_cong(cs[m - 1], xp, fk + gk * h, xp);
        lemma_modl_idem(pc);
        lemma_modl_add_cong(pc, cs[m - 1] * xp, pf + pfp * h, (fk + gk * h) * xp);
        assert(pf + pfp * h + (fk + gk * h) * xp == (pf + fk * xp) + (pfp + gk * xp) * h) by (nonlinear_arith);
    }
}

/// An honestly dealt broadcast's commitment polynomial, evaluated at the
/// dealer's own point, opens to the pair the dealer kept.
pub proof fn lemma_dealt_commitment_opens<P>(
    b: Round1Broadcast<P>,
    l: Round1LocalState,
    f: Seq<int>,
    fp: Seq<int>,
    share: int,
    my: usize,
    t: int,
)
    requires
        0 <= t,
        round1_dealt(b, l, f, fp, share, my, t),
    ensures
        modl(pow_sum(com_dlogs(b.pedvss@), my as int, t + 1)) == com_dlog(l.my_s_ii@, l.my_sprime_ii@),
{
    let x = my as int;
    let h = h_dlog();
    let cs = com_dlogs(b.pedvss@);
    assert forall|k: int| 0 <= k < t + 1 implies #[trigger] cs[k] == com_dlog(f[k], fp[k]) by {
        assert(b.pedvss@[k]@ == com_dlog(f[k], fp[k]));
    }
    lemma_pow_sum_commitments(cs, f, fp, x, t + 1);
    lemma_poly_sum_is_pow_sum(f, x);
    lemma_poly_sum_is_pow_sum(fp, x);
    let pf = pow_sum(f, x, t + 1);
    let pfp = pow_sum(fp, x, t + 1);
    lemma_modl_idem(pf);
    lemma_modl_idem(pfp);
    lemma_modl_mul_cong(modl(pfp), h, pfp, h);
    lemma_modl_add_cong(modl(pf), modl(pfp) * h, pf, pfp * h);
}

/// Commitments to the coefficients of `f` and `fp`, evaluated in the
/// exponent at any point `x`, commit to the evaluations of `f` and `fp` at
/// `x`.
pub proof fn lemma_coefficient_commitments_open_at(cs: Seq<PedersenCommitment>, f: Seq<int>, fp: Seq<int>, t: int, x: int)
    requires
        0 <= t,
        f.len() == t + 1,
        fp.len() == t + 1,
        cs.len() == t + 1,
        forall|k: int| 0 <= k <= t ==> (#[trigger] cs[k])@ == com_dlog(f[k], fp[k]),
    ensures
        modl(pow_sum(com_dlogs(cs), x, t + 1)) == com_dlog(poly_eval(f, x), poly_eval(fp, x)),
{
    let h = h_dlog();
    let ds = com_dlogs(cs);
    assert forall|k: int| 0 <= k < t + 1 implies #[trigger] ds[k] == com_dlog(f[k], fp[k]) by {
        assert(cs[k]@ == com_dlog(f[k], fp[k]));
    }
    lemma_pow_sum_commitments(ds, f, fp, x, t + 1);
    lemma_poly_sum_is_pow_sum(f, x);
    lemma_poly_sum_is_pow_sum(fp, x);
    let pf = pow_sum(f, x, t + 1);
    let pfp = pow_sum(fp, x, t + 1);
    lemma_modl_idem(pf);
    lemma_modl_idem(pfp);
    lemma_modl_mul_cong(modl(pfp), h, pfp, h);
    lemma_modl_add_cong(modl(pf), modl(pfp) * h, pf, pfp * h);
}

/// Completeness of round two: the broadcast an honest party derives in round
/// two passes every other party's check against the round-one data, when
/// the accepted round-one broadcasts hold `t + 1` commitments each, exactly
/// one of them is this party's and opens at its point to the pair it kept,
/// the cached `D` is this party's `g^omega h^r`, and the cached `C_0`
/// matches its public key under an honest key proof.
pub proof fn lemma_honest_round2_accepted<P>(
    res: (Round2Broadcast, Round2LocalState),
    state: PartyState,
    local: Round1LocalState,
    msgs: Seq<Round1Broadcast<P>>,
    n: int,
    t: int,
    info: VerifiedRound1Info,
    w: PkWitness,
    aa: int,
    ab: int,
)
    requires
        0 <= t,
        1 <= state.dealer_idx <= n,
        round2_from(res, state, local, msgs, n, t),
        forall|i: int| 0 <= i < msgs.len() ==> (#[trigger] msgs[i]).pedvss@.len() == t + 1,
        exists|i: int| 0 <= i < msgs.len() && #[trigger] msgs[i].dealer_idx == state.dealer_idx,
        forall|i: int, k: int|
            0 <= i < k < msgs.len() && msgs[i].dealer_idx == state.dealer_idx ==> msgs[k].dealer_idx
                != state.dealer_idx,
        forall|i: int|
            0 <= i < msgs.len() && (#[trigger] msgs[i]).dealer_idx == state.dealer_idx ==> modl(
                pow_sum(com_dlogs(msgs[i].pedvss@), state.dealer_idx as int, t + 1),
            ) == com_dlog(local.my_s_ii@, local.my_sprime_ii@),
        info.d_commitment@ == com_dlog(local.omega@, local.r@),
        pk_relation((PkStatement { pk: local.pk, commitment: info.c_0 }), w),
        pk_honest((PkStatement { pk: local.pk, commitment: info.c_0 }), w, local.pk_proof, aa, ab),
    ensures
        round2_msg_ok(info, res.0, res.1.verified_round1.c_stars@[state.dealer_idx as int]),
{
    let (b, l) = res;
    let my = state.dealer_idx;
    let sk = state.enc_sk@;
    let len = msgs.len() as int;
    lemma_cstar_opens_summed_shares(sk, msgs, my, t, local.my_s_ii@, local.my_sprime_ii@);
    let c = l.verified_round1.c_stars@[my as int];
    assert(c@ == modl(pow_sum(coeff_sums(msgs, t), my as int, t + 1)));
    let (d, sp, a) = choose|d: PedersenCommitment, sp: Scalar, a: Seq<int>|
        d@ == com_dlog(local.omega@, local.r@) && sp@ == pair_sum(sk, msgs, my, len, local.my_sprime_ii@, 1)
            && comeq_honest(
            (ComEqStatement { c: l.verified_round1.c_stars@[my as int], vk: b.vk_i, d }),
            (ComEqWitness { s: l.s_i, s_prime: sp, omega: local.omega, r: local.r }),
            b.comeq_proof,
            a,
        );
    let stmt = ComEqStatement { c, vk: b.vk_i, d };
    let wit = ComEqWitness { s: l.s_i, s_prime: sp, omega: local.omega, r: local.r };
    assert(comeq_relation(stmt, wit));
    lemma_comeq_complete(stmt, wit, b.comeq_proof, a);
    let stmt2 = ComEqStatement { c, vk: b.vk_i, d: info.d_commitment };
    assert(comeq_statement_ops(stmt2) == comeq_statement_ops(stmt));
    assert(comeq_challenge(stmt2, b.comeq_proof) == comeq_challenge(stmt, b.comeq_proof));
    assert(comeq_valid(stmt2, b.comeq_proof));
    lemma_pk_complete((PkStatement { pk: local.pk, commitment: info.c_0 }), w, local.pk_proof, aa, ab);
    reveal(round2_msg_ok);
}

} // verus!
