//! What the outputs of the two-round protocol promise: every party agrees on
//! the public key and the verification keys, and with each dealer announcing
//! `pk = g^{share}` the public key is `g` to the sum of what the dealers
//! shared.

use crate::arith::{lemma_modl_add, lemma_modl_bound, modl};
use crate::one_round::laws::int_sum;
use crate::abort::{report_signed_bytes, AbortReport, AbortVerdict};
use crate::encryption::elgamal::{batch_check, is_honest_pok, opened_share};
use crate::one_round_proofs::utils::com_dlogs;
use crate::pedersen::com_dlog;
use crate::poly::poly_eval;
use crate::party::party_keys_match;
use crate::two_round::completeness::lemma_coefficient_commitments_open_at;
use crate::two_round::pow_sum;
use crate::two_round::{
    cache_of, counted_opt, lemma_last_from, output_params_ok, output_result, output_error_of, dealer_error, round2_msg_ok, round2_output_blames, VerifiedRound1Info,
};
use crate::two_round::completeness::{lemma_dealt_commitment_opens, lemma_honest_round2_accepted};
use crate::two_round_proofs::comeq_proof::{comeq_challenge, comeq_statement_ops, ComEqStatement};
use crate::two_round_proofs::pk_proof::{pk_honest, pk_relation, PkStatement, PkWitness};
use crate::party::{Parties, PartyState};
use crate::sig::{ed25519_public_key, ed25519_verify_strict, nonce_is_neutral};
use crate::two_round::{
    evals_at_parties, round1_shares_encrypted, abort_verdict_of, counted, last_from, pair_opens_at, pk_sum, report_built_from, reporter_commitment,
    round1_check_blames, round1_dealt, round1_decryption_blames, round1_honest, round1_signed_bytes, round2_from, round2_output, round2_signature_ok,
    Round1Broadcast, Round1LocalState, Round2Broadcast, Round2LocalState,
    TwoRoundDkgError,
};
use crate::runs::{round1_dealt_honestly, round1_dealt_with, run_parties, run_round1, run_round2};
use crate::two_round_proofs::completeness::lemma_decom_complete;
use crate::two_round_proofs::decom_proof::{
    decom_challenge, decom_honest, decom_lambdas, decom_points, decom_relation, decom_valid, DecomProof, DecomStatement,
    DecomWitness, SchnorrDecomProof, SchnorrDecomProofParams,
};
use crate::two_round_proofs::DecomProofScheme;
use crate::wire::WireCodec;
use crate::{DkgOutput, DkgParams};
use vstd::prelude::*;
use vstd::string::StringSliceAdditionalSpecFns;

verus! {

/// Outputs computed from the same round-two broadcasts agree on the public
/// key and on every verification key, whichever parties computed them.
pub proof fn lemma_round2_outputs_agree(
    out1: DkgOutput,
    my1: usize,
    local1: Round2LocalState,
    out2: DkgOutput,
    my2: usize,
    local2: Round2LocalState,
    n: int,
    ms: Seq<Round2Broadcast>,
)
    requires
        round2_output(out1, my1, n, local1, ms),
        round2_output(out2, my2, n, local2, ms),
    ensures
        out1.public_key@ == out2.public_key@,
        out1.partial_verification_keys@ == out2.partial_verification_keys@,
{
    assert(out1.partial_verification_keys@ =~= out2.partial_verification_keys@) by {
        assert forall|k: int| 0 <= k < n implies #[trigger] out1.partial_verification_keys@[k]
            == out2.partial_verification_keys@[k] by {
            assert(out1.partial_verification_keys@[k] == counted(ms, k + 1).vk_i);
            assert(out2.partial_verification_keys@[k] == counted(ms, k + 1).vk_i);
        }
    }
}

/// A party's output share and blinding open its own verification key when
/// the round-two broadcast that counts for it is the one it made, which
/// commits to the share it summed with the blinding `omega` it kept.
pub proof fn lemma_round2_output_opens_own_key(
    out: DkgOutput,
    my: usize,
    n: int,
    local2: Round2LocalState,
    ms: Seq<Round2Broadcast>,
)
    requires
        1 <= my <= n,
        round2_output(out, my, n, local2, ms),
        counted(ms, my as int).vk_i@ == crate::pedersen::com_dlog(local2.s_i@, local2.omega@),
    ensures
        out.partial_verification_keys@[my - 1]@ == crate::pedersen::com_dlog(out.secret_share@, out.blinding_share@),
{
    assert(out.partial_verification_keys@[my - 1] == counted(ms, my as int).vk_i);
}

/// Every round-two broadcast's `pk` is the one its dealer kept in round one.
pub open spec fn pks_announced(ms: Seq<Round2Broadcast>, locals: Seq<Round1LocalState>) -> bool {
    forall|i: int|
        0 <= i < ms.len() ==> 1 <= (#[trigger] ms[i]).dealer_idx <= locals.len() && ms[i].pk
            == locals[ms[i].dealer_idx - 1].pk
}

/// Some round-two broadcast comes from dealer `d`.
pub open spec fn has_round2_from(ms: Seq<Round2Broadcast>, d: int) -> bool {
    exists|i: int| 0 <= i < ms.len() && #[trigger] ms[i].dealer_idx == d
}

proof fn lemma_pk_sum_of_shared(ms: Seq<Round2Broadcast>, locals: Seq<Round1LocalState>, shares: Seq<int>, k: int)
    requires
        0 <= k <= locals.len(),
        locals.len() == shares.len(),
        forall|d: int| 0 <= d < locals.len() ==> (#[trigger] locals[d]).pk@ == modl(shares[d]),
        pks_announced(ms, locals),
        forall|d: int| 1 <= d <= locals.len() ==> #[trigger] has_round2_from(ms, d),
    ensures
        pk_sum(ms, k) == modl(int_sum(shares, k)),
    decreases k,
{
    if k == 0 {
        lemma_modl_bound(0);
    } else {
        lemma_pk_sum_of_shared(ms, locals, shares, k - 1);
        crate::two_round::lemma_last_from(ms, k, ms.len() as int);
        assert(has_round2_from(ms, k));
        let w = choose|i: int| 0 <= i < ms.len() && #[trigger] ms[i].dealer_idx == k;
        assert(ms[w].dealer_idx == k);
        assert(last_from(ms, k, ms.len() as int) is Some);
        let i = last_from(ms, k, ms.len() as int).unwrap();
        assert(counted(ms, k) == ms[i]);
        assert(ms[i].pk == locals[k - 1].pk);
        let s = int_sum(shares, k - 1);
        lemma_modl_add(s, modl(shares[k - 1]));
        lemma_modl_add(s, shares[k - 1]);
        assert(pk_sum(ms, k) == modl(modl(s) + modl(shares[k - 1])));
    }
}

/// With a round-two broadcast from every dealer, each carrying the `pk` its
/// dealer kept in round one, and each dealer's `pk = g^{share}`, the joint
/// public key is `g` to the sum of the shared values.
pub proof fn lemma_round2_public_key_is_sum_of_shared(
    out: DkgOutput,
    my: usize,
    n: int,
    local2: Round2LocalState,
    ms: Seq<Round2Broadcast>,
    locals: Seq<Round1LocalState>,
    shares: Seq<int>,
)
    requires
        round2_output(out, my, n, local2, ms),
        locals.len() == n,
        shares.len() == n,
        forall|d: int| 0 <= d < n ==> (#[trigger] locals[d]).pk@ == modl(shares[d]),
        pks_announced(ms, locals),
        forall|d: int| 1 <= d <= n ==> #[trigger] has_round2_from(ms, d),
    ensures
        out.public_key@ == modl(int_sum(shares, n)),
{
    lemma_pk_sum_of_shared(ms, locals, shares, n);
}

/// An honest complaint convicts the dealer. When party `my`'s round two
/// reports that the pair dealer `d` sent it does not open `d`'s commitment
/// polynomial at `my`, and `d` sent one broadcast, then the complaint built
/// from that error, once its signature verifies under `my`'s key and with
/// `my`'s encryption key on the party list, finds `d` guilty.
pub proof fn lemma_round1_honest_complaint_convicts<P>(
    state: PartyState,
    parties: Parties,
    msgs: Seq<Round1Broadcast<P>>,
    e: TwoRoundDkgError,
    rep: AbortReport,
    i: int,
)
    requires
        1 <= state.dealer_idx <= parties.parties@.len(),
        parties.parties@[state.dealer_idx - 1].enc_pk == state.enc_pk,
        state.enc_pk@ == modl(state.enc_sk@),
        round1_decryption_blames(e, state.enc_sk@, state.enc_pk, state.dealer_idx, msgs),
        e matches TwoRoundDkgError::InvalidDecryptionOpening { dealer_idx, .. } && dealer_idx == msgs[i].dealer_idx,
        0 <= i < msgs.len(),
        forall|j: int| 0 <= j < msgs.len() && (#[trigger] msgs[j]).dealer_idx == msgs[i].dealer_idx ==> j == i,
        report_built_from(rep, state, e),
        parties.parties@[state.dealer_idx - 1].sig_pk.bytes@ == ed25519_public_key(state.sig_sk.bytes@),
        !nonce_is_neutral(rep.signature.bytes@),
    ensures
        abort_verdict_of(parties, msgs[i], rep) == (AbortVerdict::DealerGuilty {
            dealer_idx: msgs[i].dealer_idx,
            reporter_idx: state.dealer_idx,
        }),
{
    let j = choose|j: int|
        #![trigger msgs[j]]
        0 <= j < msgs.len() && msgs[j].dealer_idx == e->InvalidDecryptionOpening_dealer_idx
            && e->InvalidDecryptionOpening_dealer_idx != state.dealer_idx && opened_share(
            state.enc_sk@,
            &msgs[j].encrypted_shares,
            state.dealer_idx,
        ) == Some((e->InvalidDecryptionOpening_s_ji@, e->InvalidDecryptionOpening_sprime_ji@)) && !pair_opens_at(
            msgs[j].pedvss@,
            state.dealer_idx as int,
            Some((e->InvalidDecryptionOpening_s_ji, e->InvalidDecryptionOpening_sprime_ji)),
        ) && crate::one_round::honest_decryption(
            msgs[j].encrypted_shares.u,
            state.enc_sk@,
            state.enc_pk,
            e->InvalidDecryptionOpening_pi_i.0,
            e->InvalidDecryptionOpening_pi_i.1,
        );
    assert(j == i);
}

/// A complaint never convicts a dealer whose pair for the reporter opens its
/// commitment polynomial at the reporter's point, when the complaint carries
/// the reporter's true shared value `u^sk` for the key `g^sk` on the party
/// list: the verdict then falls on the reporter, or the complaint is invalid.
pub proof fn lemma_round1_false_complaint_spares_dealer<P>(
    parties: Parties,
    accused: Round1Broadcast<P>,
    rep: AbortReport,
    sk: int,
)
    requires
        1 <= rep.reporter_idx <= parties.parties@.len(),
        parties.parties@[rep.reporter_idx - 1].enc_pk@ == modl(sk),
        rep.shared@ == modl(accused.encrypted_shares.u@ * sk),
        opened_share(sk, &accused.encrypted_shares, rep.reporter_idx) matches Some(p) && reporter_commitment(
            accused,
            rep.reporter_idx,
        ) == crate::pedersen::com_dlog(p.0, p.1),
    ensures
        !(abort_verdict_of(parties, accused, rep) is DealerGuilty),
{
}

/// A dealer's honestly made round-one broadcast passes the signature check
/// under the dealer's verifying key, unless its signature's nonce commitment
/// is neutral.
pub proof fn lemma_honest_round1_signature_ok<S: DecomProofScheme<Statement = DecomStatement, Witness = DecomWitness>>(
    decom_params: S::Params,
    state: PartyState,
    share: int,
    t: int,
    b: Round1Broadcast<S::Proof>,
    l: Round1LocalState,
    parties: Parties,
)
    where S::Proof: WireCodec
    requires
        round1_honest::<S>(decom_params, state, share, t, b, l),
        1 <= state.dealer_idx <= parties.parties@.len(),
        parties.parties@[state.dealer_idx - 1].sig_pk.bytes@ == ed25519_public_key(state.sig_sk.bytes@),
        !nonce_is_neutral(b.signature.bytes@),
    ensures
        ed25519_verify_strict(parties.parties@[b.dealer_idx - 1].sig_pk.bytes@, round1_signed_bytes(b), b.signature.bytes@),
{
}

/// A party's round-two broadcast passes the signature check under its
/// verifying key, unless its signature's nonce commitment is neutral.
pub proof fn lemma_round2_signature_ok<P>(
    res: (Round2Broadcast, Round2LocalState),
    state: PartyState,
    local: Round1LocalState,
    msgs: Seq<Round1Broadcast<P>>,
    n: int,
    t: int,
    parties: Parties,
)
    requires
        round2_from(res, state, local, msgs, n, t),
        1 <= state.dealer_idx <= parties.parties@.len(),
        parties.parties@[state.dealer_idx - 1].sig_pk.bytes@ == ed25519_public_key(state.sig_sk.bytes@),
        !nonce_is_neutral(res.0.signature.bytes@),
    ensures
        round2_signature_ok(parties, res.0),
{
}

/// An abort report that a party built verifies under that party's verifying
/// key, unless its signature's nonce commitment is neutral.
pub proof fn lemma_built_report_signature_ok(rep: AbortReport, state: PartyState, e: TwoRoundDkgError, parties: Parties)
    requires
        report_built_from(rep, state, e),
        1 <= state.dealer_idx <= parties.parties@.len(),
        parties.parties@[state.dealer_idx - 1].sig_pk.bytes@ == ed25519_public_key(state.sig_sk.bytes@),
        !nonce_is_neutral(rep.signature.bytes@),
    ensures
        ed25519_verify_strict(parties.parties@[rep.reporter_idx - 1].sig_pk.bytes@, report_signed_bytes(rep), rep.signature.bytes@),
{
}

/// An honest round one, with decommitment proofs of the single-round system,
/// passes every check round two makes of it before decryption: no dealer index
/// out of range, no wrong number of commitments, no failing signature (unless
/// some signature's nonce commitment is neutral) and no refused proof.
pub proof fn lemma_honest_round1_checks_pass(
    params: DkgParams,
    dp: SchnorrDecomProofParams,
    my: usize,
    states: Seq<PartyState>,
    parties: Parties,
    msgs: Seq<Round1Broadcast<DecomProof>>,
    e: TwoRoundDkgError,
)
    requires
        params.n > 0,
        1 <= my <= params.n,
        params.t + 1 < usize::MAX,
        run_parties(states, parties, params.n as int),
        msgs.len() == params.n,
        forall|k: int|
            0 <= k < msgs.len() ==> round1_dealt_honestly::<SchnorrDecomProof>(dp, #[trigger] msgs[k], states[k], params.t as int),
        forall|k: int| 0 <= k < msgs.len() ==> !nonce_is_neutral((#[trigger] msgs[k]).signature.bytes@),
    ensures
        !round1_check_blames::<SchnorrDecomProof>(e, params, dp, my, msgs, parties),
{
    let n = params.n as int;
    let t = params.t as int;
    assert forall|i: int| 0 <= i < msgs.len() implies {
        &&& (#[trigger] msgs[i]).dealer_idx == i + 1
        &&& msgs[i].pedvss@.len() == t + 1
        &&& ed25519_verify_strict(parties.parties@[i].sig_pk.bytes@, round1_signed_bytes(msgs[i]), msgs[i].signature.bytes@)
        &&& forall|stmt: DecomStatement|
            stmt.pedvss@ == msgs[i].pedvss@ && stmt.d == msgs[i].d_commitment ==> decom_valid(stmt, msgs[i].decom_proof)
    } by {
        assert(round1_dealt_honestly::<SchnorrDecomProof>(dp, msgs[i], states[i], t));
        let (share, l) = choose|share: int, l: Round1LocalState| round1_honest::<SchnorrDecomProof>(dp, states[i], share, t, msgs[i], l);
        let (f, fp) = choose|f: Seq<int>, fp: Seq<int>| round1_dealt(msgs[i], l, f, fp, share, states[i].dealer_idx, t);
        let (s0, w0) = choose|stmt: DecomStatement, wit: DecomWitness|
            stmt.pedvss@ == msgs[i].pedvss@ && stmt.d == msgs[i].d_commitment && wit.omega == l.omega && wit.r == l.r
                && decom_relation(stmt, wit) && SchnorrDecomProof::proof_honest(&dp, &stmt, &wit, &msgs[i].decom_proof);
        let (aa, ab, ao, ar) = choose|aa: Seq<int>, ab: Seq<int>, ao: int, ar: int|
            decom_honest(s0, w0, msgs[i].decom_proof, aa, ab, ao, ar);
        lemma_decom_complete(s0, w0, msgs[i].decom_proof, aa, ab, ao, ar);
        assert forall|stmt: DecomStatement| stmt.pedvss@ == msgs[i].pedvss@ && stmt.d == msgs[i].d_commitment implies decom_valid(
            stmt,
            msgs[i].decom_proof,
        ) by {
            assert(stmt.pedvss@ == s0.pedvss@ && stmt.d == s0.d);
            assert(decom_lambdas(stmt) == decom_lambdas(s0));
            assert(decom_challenge(stmt, msgs[i].decom_proof.t) == decom_challenge(s0, msgs[i].decom_proof.t));
            assert(decom_points(stmt, msgs[i].decom_proof.t@) == decom_points(s0, msgs[i].decom_proof.t@));
        }
    }
}


/// Another receiver with matching keys opens an honestly dealt round-one
/// broadcast to a pair that opens the dealer's commitment polynomial at its
/// point, and the broadcast's proof of knowledge passes on its own.
proof fn lemma_round1_dealing_opens<S: DecomProofScheme<Statement = DecomStatement, Witness = DecomWitness>>(
    dp: S::Params,
    b: Round1Broadcast<S::Proof>,
    l: Round1LocalState,
    state: PartyState,
    n: int,
    t: int,
    parties: Parties,
    me: PartyState,
    my: usize,
) where S::Proof: WireCodec
    requires
        0 <= t,
        round1_dealt_with::<S>(dp, b, l, state, n, t, parties),
        1 <= my <= n,
        my != state.dealer_idx,
        n <= parties.parties@.len(),
        party_keys_match(me),
        parties.parties@[my - 1].enc_pk == me.enc_pk,
    ensures
        opened_share(me.enc_sk@, &b.encrypted_shares, my) matches Some(p) && modl(
            pow_sum(com_dlogs(b.pedvss@), my as int, b.pedvss@.len() as int),
        ) == com_dlog(p.0, p.1),
        is_honest_pok(b.encrypted_shares.u, b.encrypted_shares.u@, b.encrypted_shares.pok),
        batch_check(seq![(b.encrypted_shares.u, b.encrypted_shares.pok)]),
{
    let share = choose|share: int|
        round1_honest::<S>(dp, state, share, t, b, l) && round1_shares_encrypted(b, l, share, state.dealer_idx, n, t, parties);
    let (f, fp) = choose|f: Seq<int>, fp: Seq<int>|
        round1_dealt(b, l, f, fp, share, state.dealer_idx, t) && crate::one_round::batch_dealt(
            b.encrypted_shares,
            b.encrypted_shares.u@,
            f,
            evals_at_parties(fp, n),
            state.dealer_idx,
            n,
            parties,
        );
    let bt = b.encrypted_shares;
    let alpha = bt.u@;
    let sk = me.enc_sk@;
    // the proof of knowledge
    assert(is_honest_pok(bt.u, alpha, bt.pok));
    let pairs = seq![(bt.u, bt.pok)];
    assert(crate::encryption::elgamal::pairs_honest(pairs)) by {
        assert forall|i: int| 0 <= i < pairs.len() implies is_honest_pok((#[trigger] pairs[i]).0, pairs[i].0@, pairs[i].1) by {
            assert(pairs[i] == (bt.u, bt.pok));
        }
    }
    crate::encryption::elgamal::lemma_batch_check_honest(pairs);
    // the masked pair for `my`
    let k = my as int;
    assert(1 <= k <= n && k != state.dealer_idx);
    assert(bt.shares@.contains_key(k as usize));
    assert((k as usize) == my);
    let pe = poly_eval(f, k);
    let wk = evals_at_parties(fp, n)[k - 1];
    assert(wk == poly_eval(fp, k));
    let pk = parties.parties@[k - 1].enc_pk@;
    assert(pk == modl(sk));
    let dh = modl(alpha * sk);
    crate::arith::lemma_modl_mul(sk, alpha);
    assert(modl(pk * alpha) == dh) by {
        assert(sk * alpha == alpha * sk) by (nonlinear_arith);
    }
    let k1 = crate::encryption::elgamal::key1(dh);
    let k2 = crate::encryption::elgamal::key2(dh);
    assert(bt.shares@[k as usize].v1@ == modl(pe + k1) && bt.shares@[k as usize].v2@ == modl(wk + k2));
    crate::arith::lemma_modl_sub(pe + k1, k1);
    crate::arith::lemma_modl_sub(wk + k2, k2);
    assert(pe + k1 - k1 == pe && wk + k2 - k2 == wk);
    crate::arith::lemma_modl_idem(crate::poly::poly_sum(f, k));
    crate::arith::lemma_modl_idem(crate::poly::poly_sum(fp, k));
    assert(modl(pe) == pe && modl(wk) == wk);
    // the commitment polynomial opens at `my`
    lemma_coefficient_commitments_open_at(b.pedvss@, f, fp, t, k);
}

/// In an honest run with decommitment proofs of the single-round system,
/// round two of every party succeeds unless some signature's nonce
/// commitment is neutral: no check of round one and no decryption can be
/// blamed on anyone. The round-two broadcasts then pass the output phase
/// (`lemma_honest_round2_accepted`), and the outputs agree
/// (`lemma_round2_outputs_agree`).
pub proof fn lemma_honest_round2_blames_nobody(
    params: DkgParams,
    dp: SchnorrDecomProofParams,
    my: usize,
    states: Seq<PartyState>,
    parties: Parties,
    msgs: Seq<Round1Broadcast<DecomProof>>,
    locals: Seq<Round1LocalState>,
    e: TwoRoundDkgError,
)
    requires
        params.n > 0,
        1 <= my <= params.n,
        params.t + 1 < usize::MAX,
        run_parties(states, parties, params.n as int),
        run_round1::<SchnorrDecomProof>(dp, msgs, locals, states, params.n as int, params.t as int, parties),
        forall|k: int| 0 <= k < msgs.len() ==> !nonce_is_neutral((#[trigger] msgs[k]).signature.bytes@),
    ensures
        !round1_check_blames::<SchnorrDecomProof>(e, params, dp, my, msgs, parties),
        !round1_decryption_blames(e, states[my - 1].enc_sk@, states[my - 1].enc_pk, my, msgs),
{
    let n = params.n as int;
    let t = params.t as int;
    let me = states[my - 1];
    assert forall|k: int| 0 <= k < msgs.len() implies round1_dealt_honestly::<SchnorrDecomProof>(dp, #[trigger] msgs[k], states[k], t) by {
        assert(round1_dealt_with::<SchnorrDecomProof>(dp, msgs[k], locals[k], states[k], n, t, parties));
        let share = choose|share: int|
            round1_honest::<SchnorrDecomProof>(dp, states[k], share, t, msgs[k], locals[k]) && round1_shares_encrypted(
                msgs[k],
                locals[k],
                share,
                states[k].dealer_idx,
                n,
                t,
                parties,
            );
    }
    lemma_honest_round1_checks_pass(params, dp, my, states, parties, msgs, e);
    assert(me.dealer_idx == my);
    assert forall|i: int| 0 <= i < msgs.len() && msgs[i].dealer_idx != my implies {
        &&& (opened_share(me.enc_sk@, &(#[trigger] msgs[i]).encrypted_shares, my) matches Some(p) && modl(
            pow_sum(com_dlogs(msgs[i].pedvss@), my as int, msgs[i].pedvss@.len() as int),
        ) == com_dlog(p.0, p.1))
        &&& is_honest_pok(msgs[i].encrypted_shares.u, msgs[i].encrypted_shares.u@, msgs[i].encrypted_shares.pok)
        &&& batch_check(seq![(msgs[i].encrypted_shares.u, msgs[i].encrypted_shares.pok)])
    } by {
        assert(round1_dealt_with::<SchnorrDecomProof>(dp, msgs[i], locals[i], states[i], n, t, parties));
        let share = choose|share: int|
            round1_honest::<SchnorrDecomProof>(dp, states[i], share, t, msgs[i], locals[i]) && round1_shares_encrypted(
                msgs[i],
                locals[i],
                share,
                states[i].dealer_idx,
                n,
                t,
                parties,
            );
        assert(msgs[i].dealer_idx == states[i].dealer_idx);
        lemma_round1_dealing_opens::<SchnorrDecomProof>(dp, msgs[i], locals[i], states[i], n, t, parties, me, my);
    }
    match e {
        TwoRoundDkgError::InvalidDecryptionOpening { dealer_idx, receiver_idx, s_ji, sprime_ji, pi_i } => {
            assert forall|i: int|
                0 <= i < msgs.len() && msgs[i].dealer_idx == dealer_idx && dealer_idx != my && opened_share(
                    me.enc_sk@,
                    &(#[trigger] msgs[i]).encrypted_shares,
                    my,
                ) == Some((s_ji@, sprime_ji@)) implies pair_opens_at(msgs[i].pedvss@, my as int, Some((s_ji, sprime_ji))) by {}
        },
        _ => {},
    }
}


/// In a run, the round-two broadcast of dealer `d` passes receiver `my`'s
/// check against the round-one data `my` verified.
proof fn lemma_dealer_round2_passes(
    dp: SchnorrDecomProofParams,
    states: Seq<PartyState>,
    parties: Parties,
    msgs: Seq<Round1Broadcast<DecomProof>>,
    locals: Seq<Round1LocalState>,
    r2: Seq<Round2Broadcast>,
    l2s: Seq<Round2LocalState>,
    n: int,
    t: int,
    my: int,
    d: int,
)
    requires
        0 <= t,
        1 <= my <= n,
        1 <= d <= n,
        run_parties(states, parties, n),
        run_round1::<SchnorrDecomProof>(dp, msgs, locals, states, n, t, parties),
        run_round2(r2, l2s, states, msgs, locals, n, t),
    ensures
        l2s[my - 1].verified_round1.by_idx@[d] is Some,
        round2_msg_ok(l2s[my - 1].verified_round1.by_idx@[d].unwrap(), r2[d - 1], l2s[my - 1].verified_round1.c_stars@[d]),
{
    let c = l2s[my - 1].verified_round1;
    assert(states[my - 1].dealer_idx == my);
    assert(round2_from((r2[my - 1], l2s[my - 1]), states[my - 1], locals[my - 1], msgs, n, t));
    assert(cache_of(c, msgs, n, t));
    assert forall|i: int| 0 <= i < msgs.len() implies (#[trigger] msgs[i]).dealer_idx == i + 1 && msgs[i].pedvss@.len() == t + 1 by {
        assert(round1_dealt_with::<SchnorrDecomProof>(dp, msgs[i], locals[i], states[i], n, t, parties));
        assert(states[i].dealer_idx == i + 1);
        let share = choose|share: int| round1_honest::<SchnorrDecomProof>(dp, states[i], share, t, msgs[i], locals[i]);
        let (f, fp) = choose|f: Seq<int>, fp: Seq<int>| round1_dealt(msgs[i], locals[i], f, fp, share, states[i].dealer_idx, t);
    }
    assert(msgs[d - 1].dealer_idx == d);
    assert(c.by_idx@[d] is Some);
    let info = c.by_idx@[d].unwrap();
    let i0 = choose|i: int|
        0 <= i < msgs.len() && msgs[i].dealer_idx == d && info.c_0 == msgs[i].pedvss@[0]
            && info.d_commitment == msgs[i].d_commitment;
    assert(i0 == d - 1);
    let st = states[d - 1];
    let loc = locals[d - 1];
    let b = msgs[d - 1];
    assert(round1_dealt_with::<SchnorrDecomProof>(dp, b, loc, st, n, t, parties));
    let share = choose|share: int| round1_honest::<SchnorrDecomProof>(dp, st, share, t, b, loc);
    let (f, fp) = choose|f: Seq<int>, fp: Seq<int>| round1_dealt(b, loc, f, fp, share, st.dealer_idx, t);
    let (w, aa, ab) = choose|w: PkWitness, aa: int, ab: int|
        w.a@ == share && pk_relation((PkStatement { pk: loc.pk, commitment: b.pedvss@[0] }), w)
            && pk_honest((PkStatement { pk: loc.pk, commitment: b.pedvss@[0] }), w, loc.pk_proof, aa, ab);
    lemma_dealt_commitment_opens(b, loc, f, fp, share, st.dealer_idx, t);
    assert(round2_from((r2[d - 1], l2s[d - 1]), st, loc, msgs, n, t));
    lemma_honest_round2_accepted((r2[d - 1], l2s[d - 1]), st, loc, msgs, n, t, info, w, aa, ab);
    // the dealer's own C*_d and the receiver's have one value
    let cd = l2s[d - 1].verified_round1;
    assert(cache_of(cd, msgs, n, t));
    assert(cd.c_stars@[d]@ == c.c_stars@[d]@);
    reveal(round2_msg_ok);
    let m = r2[d - 1];
    let s1 = ComEqStatement { c: cd.c_stars@[d], vk: m.vk_i, d: info.d_commitment };
    let s2 = ComEqStatement { c: c.c_stars@[d], vk: m.vk_i, d: info.d_commitment };
    assert(comeq_statement_ops(s1) == comeq_statement_ops(s2));
    assert(comeq_challenge(s1, m.comeq_proof) == comeq_challenge(s2, m.comeq_proof));
}

/// In an honest run of both rounds with decommitment proofs of the
/// single-round system, no error of a receiver's output phase can be blamed
/// on anyone: the output phase of every party succeeds unless some round-two
/// signature's nonce commitment is neutral, and the outputs then agree
/// (`lemma_round2_outputs_agree`) on `pk = g^{sum of the shares}`
/// (`lemma_round2_public_key_is_sum_of_shared`).
pub proof fn lemma_honest_output_blames_nobody(
    params: DkgParams,
    dp: SchnorrDecomProofParams,
    my: usize,
    states: Seq<PartyState>,
    parties: Parties,
    msgs: Seq<Round1Broadcast<DecomProof>>,
    locals: Seq<Round1LocalState>,
    r2: Seq<Round2Broadcast>,
    l2s: Seq<Round2LocalState>,
    e: TwoRoundDkgError,
)
    requires
        params.n > 0,
        1 <= my <= params.n,
        run_parties(states, parties, params.n as int),
        run_round1::<SchnorrDecomProof>(dp, msgs, locals, states, params.n as int, params.t as int, parties),
        run_round2(r2, l2s, states, msgs, locals, params.n as int, params.t as int),
        forall|k: int| 0 <= k < r2.len() ==> !nonce_is_neutral((#[trigger] r2[k]).signature.bytes@),
    ensures
        !round2_output_blames(e, params, my, l2s[my - 1], r2, parties),
{
    let n = params.n as int;
    let t = params.t as int;
    let ms = r2;
    let l2 = l2s[my - 1];
    let c = l2.verified_round1;
    assert(states[my - 1].dealer_idx == my);
    assert(round2_from((r2[my - 1], l2s[my - 1]), states[my - 1], locals[my - 1], msgs, n, t));
    assert(output_params_ok(params, my, l2));
    assert forall|i: int| 0 <= i < ms.len() implies (#[trigger] ms[i]).dealer_idx == i + 1 && round2_signature_ok(parties, ms[i]) by {
        assert(states[i].dealer_idx == i + 1);
        assert(round2_from((r2[i], l2s[i]), states[i], locals[i], msgs, n, t));
        lemma_round2_signature_ok((r2[i], l2s[i]), states[i], locals[i], msgs, n, t, parties);
    }
    match e {
        TwoRoundDkgError::MissingRound2Message { dealer_idx } => {
            if 1 <= dealer_idx <= params.n {
                let d = dealer_idx as int;
                lemma_dealer_round2_passes(dp, states, parties, msgs, locals, r2, l2s, n, t, my as int, d);
                lemma_last_from(ms, d, n);
                assert(ms[d - 1].dealer_idx == d);
            }
        },
        TwoRoundDkgError::InvalidPkProof { dealer_idx } => {
            if 1 <= dealer_idx <= params.n {
                let d = dealer_idx as int;
                lemma_dealer_round2_passes(dp, states, parties, msgs, locals, r2, l2s, n, t, my as int, d);
                lemma_last_from(ms, d, n);
                assert(ms[d - 1].dealer_idx == d);
                reveal(round2_msg_ok);
            }
        },
        TwoRoundDkgError::InvalidComEqProof { dealer_idx } => {
            if 1 <= dealer_idx <= params.n {
                let d = dealer_idx as int;
                lemma_dealer_round2_passes(dp, states, parties, msgs, locals, r2, l2s, n, t, my as int, d);
                lemma_last_from(ms, d, n);
                assert(ms[d - 1].dealer_idx == d);
                reveal(round2_msg_ok);
            }
        },
        _ => {},
    }
}


/// The output phase's result is a function of its inputs: two results that
/// both meet `output_result` on the same arguments, as those of `dkg_output`
/// and `dkg_output_parallel` do, are the same error, or outputs that agree in
/// every field (the public key as a group element).
pub proof fn lemma_output_result_determined(
    r1: Result<DkgOutput, TwoRoundDkgError>,
    r2: Result<DkgOutput, TwoRoundDkgError>,
    params: DkgParams,
    my: usize,
    local2: Round2LocalState,
    ms: Seq<Round2Broadcast>,
    parties: Parties,
)
    requires
        output_result(r1, params, my, local2, ms, parties),
        output_result(r2, params, my, local2, ms, parties),
    ensures
        r1 is Ok <==> r2 is Ok,
        r1 is Err ==> r1 == r2,
        r1 matches Ok(o1) ==> r2 matches Ok(o2) && o1.idx == o2.idx && o1.secret_share == o2.secret_share
            && o1.blinding_share == o2.blinding_share && o1.public_key@ == o2.public_key@
            && o1.partial_verification_keys@ == o2.partial_verification_keys@,
{
    if let (Ok(o1), Ok(o2)) = (r1, r2) {
        assert(o1.partial_verification_keys@ =~= o2.partial_verification_keys@);
    }
}


/// In an honest run, the output phase of party `my` names no error.
proof fn lemma_honest_output_error_none(
    params: DkgParams,
    dp: SchnorrDecomProofParams,
    my: usize,
    states: Seq<PartyState>,
    parties: Parties,
    msgs: Seq<Round1Broadcast<DecomProof>>,
    locals: Seq<Round1LocalState>,
    r2: Seq<Round2Broadcast>,
    l2s: Seq<Round2LocalState>,
)
    requires
        params.n > 0,
        1 <= my <= params.n,
        run_parties(states, parties, params.n as int),
        run_round1::<SchnorrDecomProof>(dp, msgs, locals, states, params.n as int, params.t as int, parties),
        run_round2(r2, l2s, states, msgs, locals, params.n as int, params.t as int),
        forall|k: int| 0 <= k < r2.len() ==> !nonce_is_neutral((#[trigger] r2[k]).signature.bytes@),
    ensures
        output_error_of(params, my, l2s[my - 1], r2, parties) is None,
        forall|i: int| 0 <= i < r2.len() ==> (#[trigger] r2[i]).dealer_idx == i + 1 && r2[i].pk == locals[i].pk,
{
    let n = params.n as int;
    let t = params.t as int;
    let l2 = l2s[my - 1];
    let c = l2.verified_round1;
    assert(states[my - 1].dealer_idx == my);
    assert(round2_from((r2[my - 1], l2s[my - 1]), states[my - 1], locals[my - 1], msgs, n, t));
    assert(output_params_ok(params, my, l2));
    assert forall|i: int| 0 <= i < r2.len() implies (#[trigger] r2[i]).dealer_idx == i + 1 && round2_signature_ok(parties, r2[i])
        && r2[i].pk == locals[i].pk by {
        assert(states[i].dealer_idx == i + 1);
        assert(round2_from((r2[i], l2s[i]), states[i], locals[i], msgs, n, t));
        lemma_round2_signature_ok((r2[i], l2s[i]), states[i], locals[i], msgs, n, t, parties);
    }
    crate::two_round::lemma_first_bad_signature(r2, parties, 0, r2.len() as int);
    assert forall|d: int| 1 <= d <= n implies #[trigger] dealer_error(
        d,
        c.by_idx@[d],
        counted_opt(r2, d),
        c.c_stars@[d],
    ) is None by {
        lemma_dealer_round2_passes(dp, states, parties, msgs, locals, r2, l2s, n, t, my as int, d);
        lemma_last_from(r2, d, n);
        assert(r2[d - 1].dealer_idx == d);
        reveal(round2_msg_ok);
    }
    crate::two_round::lemma_first_dealer_error(c, r2, n, 1, n + 1);
}

/// The central law of the two-round protocol. In an honest run of both
/// rounds with decommitment proofs of the single-round system, where party
/// `k + 1` dealt `shares[k]`, the output phase of every party succeeds
/// (unless some round-two signature's nonce commitment is neutral) and
/// outputs the party's index and summed share, the public key
/// `g^{sum of the shares}`, and every party's verification key `vk_k`.
#[verifier::rlimit(30)]
pub proof fn lemma_honest_two_round_output(
    params: DkgParams,
    dp: SchnorrDecomProofParams,
    my: usize,
    states: Seq<PartyState>,
    parties: Parties,
    msgs: Seq<Round1Broadcast<DecomProof>>,
    locals: Seq<Round1LocalState>,
    r2: Seq<Round2Broadcast>,
    l2s: Seq<Round2LocalState>,
    shares: Seq<int>,
    r: Result<DkgOutput, TwoRoundDkgError>,
)
    requires
        params.n > 0,
        1 <= my <= params.n,
        run_parties(states, parties, params.n as int),
        run_round1::<SchnorrDecomProof>(dp, msgs, locals, states, params.n as int, params.t as int, parties),
        run_round2(r2, l2s, states, msgs, locals, params.n as int, params.t as int),
        forall|k: int| 0 <= k < r2.len() ==> !nonce_is_neutral((#[trigger] r2[k]).signature.bytes@),
        shares.len() == params.n,
        forall|k: int|
            0 <= k < params.n ==> round1_honest::<SchnorrDecomProof>(
                dp,
                states[k],
                #[trigger] shares[k],
                params.t as int,
                msgs[k],
                locals[k],
            ),
        output_result(r, params, my, l2s[my - 1], r2, parties),
    ensures
        r matches Ok(out) && {
            &&& out.idx == my
            &&& out.secret_share == l2s[my - 1].s_i
            &&& out.public_key@ == modl(int_sum(shares, params.n as int))
            &&& out.partial_verification_keys@.len() == params.n
            &&& forall|k: int| 0 <= k < params.n ==> #[trigger] out.partial_verification_keys@[k] == r2[k].vk_i
        },
{
    let n = params.n as int;
    let t = params.t as int;
    let l2 = l2s[my - 1];
    lemma_honest_output_error_none(params, dp, my, states, parties, msgs, locals, r2, l2s);
    let out = r->Ok_0;
    assert(round2_output(out, my, n, l2, r2));
    // the public key
    assert forall|d: int| 0 <= d < n implies (#[trigger] locals[d]).pk@ == modl(shares[d]) by {
        assert(round1_honest::<SchnorrDecomProof>(dp, states[d], shares[d], t, msgs[d], locals[d]));
        let (f, fp) = choose|f: Seq<int>, fp: Seq<int>| round1_dealt(msgs[d], locals[d], f, fp, shares[d], states[d].dealer_idx, t);
    }
    assert(pks_announced(r2, locals));
    assert forall|d: int| 1 <= d <= n implies #[trigger] has_round2_from(r2, d) by {
        assert(r2[d - 1].dealer_idx == d);
    }
    lemma_round2_public_key_is_sum_of_shared(out, my, n, l2, r2, locals, shares);
    // the verification keys
    assert forall|k: int| 0 <= k < n implies #[trigger] out.partial_verification_keys@[k] == r2[k].vk_i by {
        lemma_last_from(r2, k + 1, n);
        assert(r2[k].dealer_idx == k + 1);
        assert(out.partial_verification_keys@[k] == counted(r2, k + 1).vk_i);
    }
}


/// A round-one broadcast and a round-two broadcast are never signed as the
/// same bytes, so a signature on one is never taken for the other's.
pub proof fn lemma_round_domains_separate<P: WireCodec>(m1: Round1Broadcast<P>, m2: Round2Broadcast)
    ensures
        round1_signed_bytes(m1) != crate::two_round::round2_signed_bytes(m2),
{
    let d1 = "janus2-round1-broadcast";
    let d2 = "janus2-round2-broadcast";
    reveal_strlit("janus2-round1-broadcast");
    reveal_strlit("janus2-round2-broadcast");
    assert(vstd::string::is_ascii(d1));
    assert(vstd::string::is_ascii(d2));
    vstd::string::is_ascii_spec_bytes(d1);
    vstd::string::is_ascii_spec_bytes(d2);
    assert(d1@.len() == 23 && d2@.len() == 23);
    assert(d1@[12] == '1' && d2@[12] == '2');
    assert(d1.spec_bytes()[12] == d1@[12] as u8);
    assert(d2.spec_bytes()[12] == d2@[12] as u8);
    assert(('1' as u8) != ('2' as u8));
    assert(d1.spec_bytes() != d2.spec_bytes());
    crate::wire::lemma_signed_bytes_separate(
        d1.spec_bytes(),
        crate::two_round::round1_fields_encoding(m1),
        d2.spec_bytes(),
        crate::two_round::round2_fields_encoding(m2),
    );
}

} // verus!
