//! What the outputs of the one-round protocol promise: the output is a
//! function of the accepted broadcasts, every party agrees on the public key
//! and the verification keys, each party's share opens its own verification
//! key, the public key is `g` to the sum of what the dealers shared, and a
//! refresh (every dealer sharing zero) moves the shares but not the key; and
//! what an honest dealer sends passes every receiver's checks: its signature,
//! its encoding on the wire and its well-formedness proof; so in an honest run
//! no output phase fails.

use crate::arith::{group_order, lemma_modl_add, lemma_modl_bound, modl};
use crate::abort::{report_signed_bytes, AbortReport, AbortVerdict};
use crate::encryption::elgamal::{batch_check, is_honest_pok, opened_share};
use crate::party::party_keys_match;
use crate::poly::poly_eval;
use crate::one_round::{
    abort_verdict_of, col_sum, decryption_error_blames, f0_sum, init_honest, lemma_output_share_opens_key, one_per_dealer,
    batch_dealt, broadcast_ok, init_structure_ok, broadcasts_accepted, dealt_from, shares_encrypted, has_dealer, init_encodable, init_fields_encoding, init_on_wire, init_signature_ok, output_error_blames, output_matches, proof_accepted, proof_dealt, proof_refused, report_built_from, statement_of, DkgInitBroadcast, DkgInitLocalState, DkgInitResult,
    DkgOutputError,
};
use crate::one_round_proofs::completeness::{
    lemma_bulletproof_complete_given_linear, lemma_bulletproof_valid_same_statement, lemma_fischlin_complete,
    lemma_fischlin_valid_same_statement, lemma_schnorr_complete, lemma_schnorr_valid_same_statement, same_statement,
};
use crate::one_round_proofs::polyproof_bulletproof::{
    bulletproof_nondegenerate, params_ok, BulletproofPolyProof, PolyWellFormedBulletproof, PolyWellFormedBulletproofParams,
};
use crate::one_round_proofs::polyproof_fischlin::{FischlinPolyProof, FischlinProofParams, PolyWellFormedFischlinProof};
use crate::one_round_proofs::polyproof_schnorr::{schnorr_honest, PolyWellFormedProof, SchnorrPolyProof};
use crate::one_round_proofs::polyproof_schnorr::poly_relation;
use crate::one_round_proofs::{PolyProofScheme, PolyWellFormedStatement, PolyWellFormedWitness};
use crate::sig::{ed25519_public_key, ed25519_verify_strict, nonce_is_neutral};
use crate::party::{Parties, PartyState};
use crate::pedersen::{com_dlog, lemma_pedersen_homomorphic};
use crate::runs::{dealt_honestly, run_broadcasts, run_dealings, run_parties};
use crate::wire::{sealed, WireCodec};
use crate::group::Point;
use crate::{DkgOutput, DkgParams};
use vstd::prelude::*;

verus! {

/// Two outputs that match the same broadcasts and the same party's state (the
/// sequential and the parallel output phase, say) are the same in every value.
pub proof fn lemma_output_unique<P>(
    out1: DkgOutput,
    out2: DkgOutput,
    sk: int,
    my: usize,
    n: int,
    local: DkgInitLocalState,
    bs: Seq<DkgInitBroadcast<P>>,
)
    requires
        output_matches(out1, sk, my, n, local, bs),
        output_matches(out2, sk, my, n, local, bs),
    ensures
        out1.idx == out2.idx,
        out1.secret_share@ == out2.secret_share@,
        out1.blinding_share@ == out2.blinding_share@,
        out1.public_key@ == out2.public_key@,
        out1.partial_verification_keys@.len() == out2.partial_verification_keys@.len(),
        forall|k: int|
            0 <= k < out1.partial_verification_keys@.len() ==> (#[trigger] out1.partial_verification_keys@[k])@
                == out2.partial_verification_keys@[k]@,
{
    assert forall|k: int| 0 <= k < out1.partial_verification_keys@.len() implies (#[trigger] out1.partial_verification_keys@[k])@
        == out2.partial_verification_keys@[k]@ by {
        assert(out1.partial_verification_keys@[k]@ == col_sum(bs, k, bs.len() as int));
        assert(out2.partial_verification_keys@[k]@ == col_sum(bs, k, bs.len() as int));
    }
}

/// Outputs computed from the same broadcasts agree on the public key and on
/// every verification key, whichever parties computed them.
pub proof fn lemma_outputs_agree<P>(
    out1: DkgOutput,
    sk1: int,
    my1: usize,
    local1: DkgInitLocalState,
    out2: DkgOutput,
    sk2: int,
    my2: usize,
    local2: DkgInitLocalState,
    n: int,
    bs: Seq<DkgInitBroadcast<P>>,
)
    requires
        output_matches(out1, sk1, my1, n, local1, bs),
        output_matches(out2, sk2, my2, n, local2, bs),
    ensures
        out1.public_key@ == out2.public_key@,
        out1.partial_verification_keys@.len() == out2.partial_verification_keys@.len(),
        forall|k: int|
            0 <= k < out1.partial_verification_keys@.len() ==> (#[trigger] out1.partial_verification_keys@[k])@
                == out2.partial_verification_keys@[k]@,
{
    assert forall|k: int| 0 <= k < out1.partial_verification_keys@.len() implies (#[trigger] out1.partial_verification_keys@[k])@
        == out2.partial_verification_keys@[k]@ by {
        assert(out1.partial_verification_keys@[k]@ == col_sum(bs, k, bs.len() as int));
        assert(out2.partial_verification_keys@[k]@ == col_sum(bs, k, bs.len() as int));
    }
}

/// A party's output share and blinding open its own verification key, when
/// the broadcasts hold one from each dealer and the party's own broadcast
/// commits, for the party itself, to the pair it kept.
pub proof fn lemma_output_opens_own_key<P>(
    out: DkgOutput,
    sk: int,
    my: usize,
    n: int,
    local: DkgInitLocalState,
    bs: Seq<DkgInitBroadcast<P>>,
)
    requires
        1 <= my <= n,
        output_matches(out, sk, my, n, local, bs),
        one_per_dealer(n, bs),
        forall|i: int| 0 <= i < bs.len() ==> (#[trigger] bs[i]).pedvss@.len() == n,
        forall|i: int|
            0 <= i < bs.len() && (#[trigger] bs[i]).dealer_idx == my ==> bs[i].pedvss@[my - 1]@
                == com_dlog(local.my_share@, local.my_blinding@),
    ensures
        out.partial_verification_keys@[my - 1]@ == com_dlog(out.secret_share@, out.blinding_share@),
{
    lemma_output_share_opens_key(sk, bs, my, n, local);
    assert(out.partial_verification_keys@[my - 1]@ == col_sum(bs, my - 1, bs.len() as int));
}

/// `sum_{i < j} s[i]`.
pub open spec fn int_sum(s: Seq<int>, j: int) -> int
    decreases j,
{
    if j <= 0 {
        0
    } else {
        int_sum(s, j - 1) + s[j - 1]
    }
}

/// The sum of the first `j` broadcasts' `f0` is `g` to the sum of what
/// their dealers shared.
proof fn lemma_f0_sum_of_shared<P: WireCodec>(
    results: Seq<DkgInitResult<P>>,
    states: Seq<PartyState>,
    shares: Seq<int>,
    n: int,
    t: int,
    j: int,
)
    requires
        0 <= j <= results.len(),
        results.len() == states.len(),
        results.len() == shares.len(),
        forall|i: int| 0 <= i < results.len() ==> init_honest(#[trigger] results[i], states[i], shares[i], n, t),
    ensures
        f0_sum(results.map_values(|r: DkgInitResult<P>| r.broadcast), j) == modl(int_sum(shares, j)),
    decreases j,
{
    let bs = results.map_values(|r: DkgInitResult<P>| r.broadcast);
    if j == 0 {
        lemma_modl_bound(0);
    } else {
        lemma_f0_sum_of_shared(results, states, shares, n, t, j - 1);
        assert(init_honest(results[j - 1], states[j - 1], shares[j - 1], n, t));
        assert(bs[j - 1].f0_commitment@ == modl(shares[j - 1]));
        let i = int_sum(shares, j - 1);
        lemma_modl_add(i, modl(shares[j - 1]));
        lemma_modl_add(i, shares[j - 1]);
        assert(f0_sum(bs, j) == modl(f0_sum(bs, j - 1) + bs[j - 1].f0_commitment@));
        assert(f0_sum(bs, j) == modl(modl(i) + modl(shares[j - 1])));
        assert(modl(modl(i) + modl(shares[j - 1])) == modl(i + modl(shares[j - 1])));
    }
}

/// With every dealer honest, the joint public key is `g` to the sum of the
/// values the dealers shared; a refresh, where every dealer shares zero, has
/// the neutral element as its public key.
pub proof fn lemma_public_key_is_sum_of_shared<P: WireCodec>(
    out: DkgOutput,
    sk: int,
    my: usize,
    n: int,
    t: int,
    local: DkgInitLocalState,
    results: Seq<DkgInitResult<P>>,
    states: Seq<PartyState>,
    shares: Seq<int>,
)
    requires
        results.len() == states.len(),
        results.len() == shares.len(),
        forall|i: int| 0 <= i < results.len() ==> init_honest(#[trigger] results[i], states[i], shares[i], n, t),
        output_matches(out, sk, my, n, local, results.map_values(|r: DkgInitResult<P>| r.broadcast)),
    ensures
        out.public_key@ == modl(int_sum(shares, shares.len() as int)),
        (forall|i: int| 0 <= i < shares.len() ==> #[trigger] shares[i] == 0) ==> out.public_key@ == 0,
{
    lemma_f0_sum_of_shared(results, states, shares, n, t, results.len() as int);
    if forall|i: int| 0 <= i < shares.len() ==> #[trigger] shares[i] == 0 {
        lemma_int_sum_zero(shares, shares.len() as int);
        lemma_modl_bound(0);
    }
}

proof fn lemma_int_sum_zero(s: Seq<int>, j: int)
    requires
        0 <= j <= s.len(),
        forall|i: int| 0 <= i < s.len() ==> #[trigger] s[i] == 0,
    ensures
        int_sum(s, j) == 0,
    decreases j,
{
    if j > 0 {
        lemma_int_sum_zero(s, j - 1);
    }
}

/// Adding a refresh run's output to an earlier one: when the refresh's public
/// key is the neutral element, the public key stays where it was, and when
/// each run's share opens that run's key for party `my`, the summed share and
/// blinding open the summed key.
pub proof fn lemma_refresh_moves_shares_not_key(old: DkgOutput, refreshed: DkgOutput, my: usize)
    requires
        0 <= old.public_key@ < group_order(),
        refreshed.public_key@ == 0,
        1 <= my <= old.partial_verification_keys@.len(),
        1 <= my <= refreshed.partial_verification_keys@.len(),
        old.partial_verification_keys@[my - 1]@ == com_dlog(old.secret_share@, old.blinding_share@),
        refreshed.partial_verification_keys@[my - 1]@ == com_dlog(
            refreshed.secret_share@,
            refreshed.blinding_share@,
        ),
    ensures
        modl(old.public_key@ + refreshed.public_key@) == old.public_key@,
        modl(old.partial_verification_keys@[my - 1]@ + refreshed.partial_verification_keys@[my - 1]@) == com_dlog(
            old.secret_share@ + refreshed.secret_share@,
            old.blinding_share@ + refreshed.blinding_share@,
        ),
{
    lemma_modl_bound(old.public_key@);
    lemma_pedersen_homomorphic(
        old.secret_share@,
        old.blinding_share@,
        refreshed.secret_share@,
        refreshed.blinding_share@,
    );
}

/// An honest complaint convicts the dealer. When party `my`'s output phase
/// reports that the pair dealer `d` sent it does not open `d`'s commitment,
/// and `d` sent one broadcast, then the complaint built from that error,
/// once its signature verifies under `my`'s key and with `my`'s encryption
/// key on the party list, finds `d` guilty.
pub proof fn lemma_honest_complaint_convicts<P>(
    state: PartyState,
    parties: Parties,
    bs: Seq<DkgInitBroadcast<P>>,
    e: DkgOutputError,
    rep: AbortReport,
    i: int,
)
    requires
        1 <= state.dealer_idx <= parties.parties@.len(),
        parties.parties@[state.dealer_idx - 1].enc_pk == state.enc_pk,
        state.enc_pk@ == modl(state.enc_sk@),
        decryption_error_blames(e, state.enc_sk@, state.enc_pk, state.dealer_idx, bs),
        e matches DkgOutputError::InvalidDecryptionOpening { dealer_idx, .. } && dealer_idx == bs[i].dealer_idx,
        0 <= i < bs.len(),
        forall|j: int| 0 <= j < bs.len() && (#[trigger] bs[j]).dealer_idx == bs[i].dealer_idx ==> j == i,
        bs[i].pedvss@.len() >= state.dealer_idx,
        report_built_from(rep, state, e),
        parties.parties@[state.dealer_idx - 1].sig_pk.bytes@ == ed25519_public_key(state.sig_sk.bytes@),
        !nonce_is_neutral(rep.signature.bytes@),
    ensures
        abort_verdict_of(parties, bs[i], rep) == (AbortVerdict::DealerGuilty {
            dealer_idx: bs[i].dealer_idx,
            reporter_idx: state.dealer_idx,
        }),
{
    let j = choose|j: int|
        #![trigger bs[j]]
        0 <= j < bs.len() && bs[j].dealer_idx == e->InvalidDecryptionOpening_dealer_idx && e->InvalidDecryptionOpening_dealer_idx
            != state.dealer_idx && opened_share(state.enc_sk@, &bs[j].encrypted_shares, state.dealer_idx) == Some(
            (e->InvalidDecryptionOpening_s_ji@, e->InvalidDecryptionOpening_r_ji@),
        ) && bs[j].pedvss@[state.dealer_idx - 1]@ != crate::pedersen::com_dlog(
            e->InvalidDecryptionOpening_s_ji@,
            e->InvalidDecryptionOpening_r_ji@,
        ) && crate::one_round::honest_decryption(
            bs[j].encrypted_shares.u,
            state.enc_sk@,
            state.enc_pk,
            e->InvalidDecryptionOpening_pi_i.0,
            e->InvalidDecryptionOpening_pi_i.1,
        );
    assert(j == i);
}

/// A complaint never convicts a dealer whose pair for the reporter opens its
/// commitment, when the complaint carries the reporter's true shared value
/// `u^sk` for the key `g^sk` on the party list: the verdict then falls on the
/// reporter, or the complaint is invalid.
pub proof fn lemma_false_complaint_spares_dealer<P>(parties: Parties, accused: DkgInitBroadcast<P>, rep: AbortReport, sk: int)
    requires
        1 <= rep.reporter_idx <= parties.parties@.len(),
        rep.reporter_idx <= accused.pedvss@.len(),
        parties.parties@[rep.reporter_idx - 1].enc_pk@ == modl(sk),
        rep.shared@ == modl(accused.encrypted_shares.u@ * sk),
        opened_share(sk, &accused.encrypted_shares, rep.reporter_idx) matches Some(p)
            && accused.pedvss@[rep.reporter_idx - 1]@ == crate::pedersen::com_dlog(p.0, p.1),
    ensures
        !(abort_verdict_of(parties, accused, rep) is DealerGuilty),
{
}

/// The statement a broadcast defines is the same, by value, however it is
/// built.
proof fn lemma_statements_agree<P>(s1: PolyWellFormedStatement, s2: PolyWellFormedStatement, m: DkgInitBroadcast<P>, n: int, t: int)
    requires
        statement_of(s1, m, n, t),
        statement_of(s2, m, n, t),
    ensures
        same_statement(s1, s2),
{
    assert forall|i: int| 0 <= i < s1.x_points@.len() implies (#[trigger] s1.x_points@[i])@ == s2.x_points@[i]@ by {
        assert(s2.x_points@[i]@ == i + 1);
    }
}

/// A single-round proof that a dealer made honestly is accepted by every
/// receiver and refused by none: it verifies on the statement the broadcast
/// defines.
pub proof fn lemma_honest_schnorr_proof_accepted(m: DkgInitBroadcast<PolyWellFormedProof>, n: int, t: int)
    requires
        proof_dealt::<SchnorrPolyProof>((), m, n, t),
    ensures
        proof_accepted::<SchnorrPolyProof>((), m, n, t),
        !proof_refused::<SchnorrPolyProof>((), m, n, t),
{
    let (stmt, wit) = choose|stmt: PolyWellFormedStatement, wit: PolyWellFormedWitness|
        statement_of(stmt, m, n, t) && poly_relation(stmt, wit) && SchnorrPolyProof::proof_honest(&(), &stmt, &wit, &m.proof);
    let (rc, rb) = choose|rc: Seq<int>, rb: Seq<int>| schnorr_honest(stmt, wit, rc, rb, m.proof);
    lemma_schnorr_complete(stmt, wit, rc, rb, m.proof);
    assert(SchnorrPolyProof::proof_valid(&(), &stmt, &m.proof));
    assert forall|s2: PolyWellFormedStatement| statement_of(s2, m, n, t) implies SchnorrPolyProof::proof_valid(&(), &s2, &m.proof) by {
        lemma_statements_agree(stmt, s2, m, n, t);
        lemma_schnorr_valid_same_statement(stmt, s2, m.proof);
    }
}

/// A Fischlin proof that a dealer made honestly is accepted by every receiver
/// that uses the same sound parameters, and refused by none of them.
pub proof fn lemma_honest_fischlin_proof_accepted(
    params: FischlinProofParams,
    m: DkgInitBroadcast<PolyWellFormedFischlinProof>,
    n: int,
    t: int,
)
    requires
        params.rho > 0,
        1 <= params.b <= 31,
        1 <= params.t_bits <= 15,
        params.b <= params.t_bits,
        proof_dealt::<FischlinPolyProof>(params, m, n, t),
    ensures
        proof_accepted::<FischlinPolyProof>(params, m, n, t),
        !proof_refused::<FischlinPolyProof>(params, m, n, t),
{
    let (stmt, wit) = choose|stmt: PolyWellFormedStatement, wit: PolyWellFormedWitness|
        statement_of(stmt, m, n, t) && poly_relation(stmt, wit) && FischlinPolyProof::proof_honest(&params, &stmt, &wit, &m.proof);
    let (rho, b, tb) = (params.rho as int, params.b as int, params.t_bits as int);
    lemma_fischlin_complete(stmt, wit, m.proof, rho, b, tb);
    assert(FischlinPolyProof::proof_valid(&params, &stmt, &m.proof));
    assert forall|s2: PolyWellFormedStatement| statement_of(s2, m, n, t) implies FischlinPolyProof::proof_valid(&params, &s2, &m.proof) by {
        lemma_statements_agree(stmt, s2, m, n, t);
        lemma_fischlin_valid_same_statement(stmt, s2, m.proof, rho, b, tb);
    }
}

/// A dealer whose every broadcast carries an honestly made single-round proof
/// is never blamed for a refused proof.
pub proof fn lemma_honest_dealer_not_blamed_for_schnorr_proof(
    dkg_params: DkgParams,
    sk: int,
    pk: Point,
    my: usize,
    bs: Seq<DkgInitBroadcast<PolyWellFormedProof>>,
    parties: Parties,
    dealer: usize,
)
    requires
        forall|i: int|
            0 <= i < bs.len() && (#[trigger] bs[i]).dealer_idx == dealer ==> proof_dealt::<SchnorrPolyProof>(
                (),
                bs[i],
                dkg_params.n as int,
                dkg_params.t as int,
            ),
    ensures
        !output_error_blames::<SchnorrPolyProof>(
            DkgOutputError::InvalidBatchProof { dealer_idx: dealer },
            dkg_params,
            (),
            sk,
            pk,
            my,
            bs,
            parties,
        ),
{
    assert forall|i: int| 0 <= i < bs.len() && bs[i].dealer_idx == dealer implies !proof_refused::<SchnorrPolyProof>(
        (),
        #[trigger] bs[i],
        dkg_params.n as int,
        dkg_params.t as int,
    ) by {
        lemma_honest_schnorr_proof_accepted(bs[i], dkg_params.n as int, dkg_params.t as int);
    }
}

/// A dealer whose every broadcast carries an honestly made Fischlin proof is
/// never blamed for a refused proof by a receiver with the same sound
/// parameters.
pub proof fn lemma_honest_dealer_not_blamed_for_fischlin_proof(
    dkg_params: DkgParams,
    params: FischlinProofParams,
    sk: int,
    pk: Point,
    my: usize,
    bs: Seq<DkgInitBroadcast<PolyWellFormedFischlinProof>>,
    parties: Parties,
    dealer: usize,
)
    requires
        params.rho > 0,
        1 <= params.b <= 31,
        1 <= params.t_bits <= 15,
        params.b <= params.t_bits,
        forall|i: int|
            0 <= i < bs.len() && (#[trigger] bs[i]).dealer_idx == dealer ==> proof_dealt::<FischlinPolyProof>(
                params,
                bs[i],
                dkg_params.n as int,
                dkg_params.t as int,
            ),
    ensures
        !output_error_blames::<FischlinPolyProof>(
            DkgOutputError::InvalidBatchProof { dealer_idx: dealer },
            dkg_params,
            params,
            sk,
            pk,
            my,
            bs,
            parties,
        ),
{
    assert forall|i: int| 0 <= i < bs.len() && bs[i].dealer_idx == dealer implies !proof_refused::<FischlinPolyProof>(
        params,
        #[trigger] bs[i],
        dkg_params.n as int,
        dkg_params.t as int,
    ) by {
        lemma_honest_fischlin_proof_accepted(params, bs[i], dkg_params.n as int, dkg_params.t as int);
    }
}

/// A dealer's honestly made broadcast passes the signature check under the
/// dealer's verifying key, unless its signature's nonce commitment is neutral.
pub proof fn lemma_honest_broadcast_signature_ok<P: WireCodec>(
    res: DkgInitResult<P>,
    state: PartyState,
    share: int,
    n: int,
    t: int,
    parties: Parties,
)
    requires
        init_honest(res, state, share, n, t),
        1 <= state.dealer_idx <= parties.parties@.len(),
        parties.parties@[state.dealer_idx - 1].sig_pk.bytes@ == ed25519_public_key(state.sig_sk.bytes@),
        !nonce_is_neutral(res.broadcast.signature.bytes@),
    ensures
        init_signature_ok(res.broadcast, parties.parties@[res.broadcast.dealer_idx - 1].sig_pk),
{
}

/// An abort report that a party built verifies under that party's verifying
/// key, unless its signature's nonce commitment is neutral.
pub proof fn lemma_built_report_signature_ok(rep: AbortReport, state: PartyState, e: DkgOutputError, parties: Parties)
    requires
        report_built_from(rep, state, e),
        1 <= state.dealer_idx <= parties.parties@.len(),
        parties.parties@[state.dealer_idx - 1].sig_pk.bytes@ == ed25519_public_key(state.sig_sk.bytes@),
        !nonce_is_neutral(rep.signature.bytes@),
    ensures
        ed25519_verify_strict(parties.parties@[rep.reporter_idx - 1].sig_pk.bytes@, report_signed_bytes(rep), rep.signature.bytes@),
{
}

/// What `to_wire` writes of a dealer's honestly made broadcast is carried on
/// the wire as the receivers read it: its fields read back and its signature
/// verifies under the dealer's key, unless the signature's nonce commitment is
/// neutral. Decoding it therefore succeeds with the same fields and signature.
pub proof fn lemma_honest_broadcast_on_wire<P: WireCodec>(
    res: DkgInitResult<P>,
    state: PartyState,
    share: int,
    n: int,
    t: int,
    parties: Parties,
    wire: Seq<u8>,
)
    requires
        init_honest(res, state, share, n, t),
        1 <= state.dealer_idx <= parties.parties@.len(),
        parties.parties@[state.dealer_idx - 1].sig_pk.bytes@ == ed25519_public_key(state.sig_sk.bytes@),
        !nonce_is_neutral(res.broadcast.signature.bytes@),
        init_encodable(res.broadcast),
        wire == sealed(init_fields_encoding(res.broadcast), res.broadcast.signature.bytes@),
    ensures
        init_on_wire(wire, res.broadcast, parties),
{
}

/// No linear proof of a broadcast's bundle has a round with an identity `L`
/// or `R` or a zero challenge, on the statement the broadcast defines.
pub open spec fn linear_proofs_nondegenerate(
    params: PolyWellFormedBulletproofParams,
    m: DkgInitBroadcast<PolyWellFormedBulletproof>,
    n: int,
    t: int,
) -> bool {
    forall|stmt: PolyWellFormedStatement| #[trigger] statement_of(stmt, m, n, t) ==> bulletproof_nondegenerate(stmt, m.proof, params)
}

/// A linear-proof bundle that a dealer made honestly is accepted by every
/// receiver that uses the same parameters, and refused by none of them,
/// unless one of its linear proofs drew a degenerate round (an identity `L`
/// or `R`, or a zero challenge), which depends on the prover's nonces.
pub proof fn lemma_honest_bulletproof_accepted(
    params: PolyWellFormedBulletproofParams,
    m: DkgInitBroadcast<PolyWellFormedBulletproof>,
    n: int,
    t: int,
)
    requires
        params_ok(params),
        n < usize::MAX,
        params.coeff_m > t,
        params.blind_m >= n,
        params.coeff_m < 0x1_0000_0000,
        params.blind_m < 0x1_0000_0000,
        proof_dealt::<BulletproofPolyProof>(params, m, n, t),
        linear_proofs_nondegenerate(params, m, n, t),
    ensures
        proof_accepted::<BulletproofPolyProof>(params, m, n, t),
        !proof_refused::<BulletproofPolyProof>(params, m, n, t),
{
    let (stmt, wit) = choose|stmt: PolyWellFormedStatement, wit: PolyWellFormedWitness|
        statement_of(stmt, m, n, t) && poly_relation(stmt, wit) && BulletproofPolyProof::proof_honest(&params, &stmt, &wit, &m.proof);
    assert(bulletproof_nondegenerate(stmt, m.proof, params));
    lemma_bulletproof_complete_given_linear(stmt, wit, m.proof, params);
    assert(BulletproofPolyProof::proof_valid(&params, &stmt, &m.proof));
    assert forall|s2: PolyWellFormedStatement| statement_of(s2, m, n, t) implies BulletproofPolyProof::proof_valid(&params, &s2, &m.proof) by {
        lemma_statements_agree(stmt, s2, m, n, t);
        lemma_bulletproof_valid_same_statement(stmt, s2, m.proof, params);
    }
}

/// A dealer whose every broadcast carries an honestly made linear-proof
/// bundle with no degenerate round is never blamed for a refused proof by a
/// receiver with the same parameters.
pub proof fn lemma_honest_dealer_not_blamed_for_bulletproof(
    dkg_params: DkgParams,
    params: PolyWellFormedBulletproofParams,
    sk: int,
    pk: Point,
    my: usize,
    bs: Seq<DkgInitBroadcast<PolyWellFormedBulletproof>>,
    parties: Parties,
    dealer: usize,
)
    requires
        params_ok(params),
        dkg_params.n < usize::MAX,
        params.coeff_m > dkg_params.t,
        params.blind_m >= dkg_params.n,
        params.coeff_m < 0x1_0000_0000,
        params.blind_m < 0x1_0000_0000,
        forall|i: int|
            0 <= i < bs.len() && (#[trigger] bs[i]).dealer_idx == dealer ==> proof_dealt::<BulletproofPolyProof>(
                params,
                bs[i],
                dkg_params.n as int,
                dkg_params.t as int,
            ) && linear_proofs_nondegenerate(params, bs[i], dkg_params.n as int, dkg_params.t as int),
    ensures
        !output_error_blames::<BulletproofPolyProof>(
            DkgOutputError::InvalidBatchProof { dealer_idx: dealer },
            dkg_params,
            params,
            sk,
            pk,
            my,
            bs,
            parties,
        ),
{
    assert forall|i: int| 0 <= i < bs.len() && bs[i].dealer_idx == dealer implies !proof_refused::<BulletproofPolyProof>(
        params,
        #[trigger] bs[i],
        dkg_params.n as int,
        dkg_params.t as int,
    ) by {
        lemma_honest_bulletproof_accepted(params, bs[i], dkg_params.n as int, dkg_params.t as int);
    }
}

/// The broadcasts of an honest run, each made by the party at its position
/// with single-round proofs, pass every check a receiver makes of them before
/// decryption: the structure, every signature (unless some signature's nonce
/// commitment is neutral) and every proof.
pub proof fn lemma_honest_broadcasts_accepted(
    dkg_params: DkgParams,
    my: usize,
    states: Seq<PartyState>,
    parties: Parties,
    bs: Seq<DkgInitBroadcast<PolyWellFormedProof>>,
)
    requires
        dkg_params.n > 0,
        1 <= my <= dkg_params.n,
        run_parties(states, parties, dkg_params.n as int),
        run_broadcasts(bs, states, dkg_params.n as int, dkg_params.t as int),
        forall|k: int| 0 <= k < bs.len() ==> !nonce_is_neutral((#[trigger] bs[k]).signature.bytes@),
        forall|k: int| 0 <= k < bs.len() ==> proof_dealt::<SchnorrPolyProof>(
            (),
            #[trigger] bs[k],
            dkg_params.n as int,
            dkg_params.t as int,
        ),
    ensures
        broadcasts_accepted::<SchnorrPolyProof>(dkg_params, (), my, bs, parties),
{
    let n = dkg_params.n as int;
    let t = dkg_params.t as int;
    assert forall|k: int| 0 <= k < n implies (#[trigger] bs[k]).dealer_idx == k + 1 && broadcast_ok(n, parties, bs[k]) by {
        assert(dealt_honestly(bs[k], states[k], n, t));
        let (res, share) = choose|res: DkgInitResult<PolyWellFormedProof>, share: int|
            res.broadcast == bs[k] && init_honest(res, states[k], share, n, t);
        let (a, w) = choose|a: Seq<int>, w: Seq<int>| dealt_from(res, a, w, share, states[k].dealer_idx, n, t);
        assert(states[k].dealer_idx == k + 1);
        lemma_honest_broadcast_signature_ok(res, states[k], share, n, t, parties);
    }
    assert forall|k: int| 1 <= k <= n implies #[trigger] has_dealer(bs, k) by {
        assert(bs[k - 1].dealer_idx == k);
    }
    assert(one_per_dealer(n, bs));
    assert forall|k: int| 0 <= k < bs.len() implies proof_accepted::<SchnorrPolyProof>((), #[trigger] bs[k], n, t) by {
        lemma_honest_schnorr_proof_accepted(bs[k], n, t);
    }
}

/// A broadcast dealt honestly by the party at its position, with its shares
/// encrypted to the parties.
pub open spec fn honest_dealing<P: WireCodec>(b: DkgInitBroadcast<P>, state: PartyState, n: int, t: int, parties: Parties) -> bool {
    exists|res: DkgInitResult<P>, share: int|
        #![trigger init_honest(res, state, share, n, t)]
        res.broadcast == b && init_honest(res, state, share, n, t) && shares_encrypted(
            res,
            share,
            state.dealer_idx,
            n,
            t,
            parties,
        )
}

/// Receiver `my` with matching keys opens an honestly dealt broadcast to the
/// pair that opens the dealer's commitment at `my`, and the broadcast's proof
/// of knowledge passes on its own.
proof fn lemma_honest_dealing_opens<P: WireCodec>(
    b: DkgInitBroadcast<P>,
    state: PartyState,
    n: int,
    t: int,
    parties: Parties,
    me: PartyState,
    my: usize,
)
    requires
        honest_dealing(b, state, n, t, parties),
        1 <= my <= n,
        my != state.dealer_idx,
        n <= parties.parties@.len(),
        party_keys_match(me),
        parties.parties@[my - 1].enc_pk == me.enc_pk,
    ensures
        opened_share(me.enc_sk@, &b.encrypted_shares, my) matches Some(p) && b.pedvss@[my - 1]@ == com_dlog(p.0, p.1),
        is_honest_pok(b.encrypted_shares.u, b.encrypted_shares.u@, b.encrypted_shares.pok),
        batch_check(seq![(b.encrypted_shares.u, b.encrypted_shares.pok)]),
{
    let (res, share) = choose|res: DkgInitResult<P>, share: int|
        res.broadcast == b && init_honest(res, state, share, n, t) && shares_encrypted(res, share, state.dealer_idx, n, t, parties);
    let (a, w) = choose|a: Seq<int>, w: Seq<int>|
        dealt_from(res, a, w, share, state.dealer_idx, n, t) && batch_dealt(
            res.broadcast.encrypted_shares,
            res.broadcast.encrypted_shares.u@,
            a,
            w,
            state.dealer_idx,
            n,
            parties,
        );
    let bt = b.encrypted_shares;
    let alpha = bt.u@;
    let sk = me.enc_sk@;
    let h = crate::group::h_dlog();
    // the proof of knowledge
    let al = choose|al: int| bt.u@ == al && is_honest_pok(bt.u, al, bt.pok);
    assert(is_honest_pok(bt.u, alpha, bt.pok));
    let pairs = seq![(bt.u, bt.pok)];
    assert(crate::encryption::elgamal::pairs_honest(pairs)) by {
        assert forall|i: int| 0 <= i < pairs.len() implies is_honest_pok((#[trigger] pairs[i]).0, pairs[i].0@, pairs[i].1) by {
            assert(pairs[i] == (bt.u, bt.pok));
        }
    }
    crate::encryption::elgamal::lemma_batch_check_honest(pairs);
    // the masked pair for `my`
    let k = my as int;
    assert(res.broadcast.encrypted_shares == bt);
    assert(1 <= k <= n && k != state.dealer_idx);
    assert(bt.shares@.contains_key(k as usize));
    assert((k as usize) == my);
    let pe = poly_eval(a, k);
    let wk = w[k - 1];
    let pk = parties.parties@[k - 1].enc_pk@;
    assert(pk == modl(sk));
    let dh = modl(alpha * sk);
    crate::arith::lemma_modl_mul(sk, alpha);
    assert(modl(pk * alpha) == dh) by {
        assert(sk * alpha == alpha * sk) by (nonlinear_arith);
    }
    let v1 = bt.shares@[k as usize].v1@;
    let v2 = bt.shares@[k as usize].v2@;
    let k1 = crate::encryption::elgamal::key1(dh);
    let k2 = crate::encryption::elgamal::key2(dh);
    assert(v1 == modl(pe + k1) && v2 == modl(wk + k2));
    crate::arith::lemma_modl_sub(pe + k1, k1);
    crate::arith::lemma_modl_sub(wk + k2, k2);
    crate::arith::lemma_modl_idem(pe + 0);
    assert(pe + k1 - k1 == pe && wk + k2 - k2 == wk);
    crate::arith::lemma_modl_bound(crate::poly::poly_sum(a, k));
    crate::arith::lemma_modl_idem(crate::poly::poly_sum(a, k));
    assert(modl(pe) == pe);
    // the commitment opens
    assert(b.pedvss@[k - 1]@ == com_dlog(pe, wk));
    crate::arith::lemma_modl_idem(wk);
    crate::arith::lemma_modl_mul_cong(modl(wk), h, wk, h);
    crate::arith::lemma_modl_add_cong(pe, modl(wk) * h, pe, wk * h);
}

/// In an honest run with single-round proofs, no error of a receiver's output
/// phase can be blamed on anyone: every party dealt honestly to every other,
/// so the output phase of every party succeeds, unless some signature's nonce
/// commitment is neutral. The outputs then agree (`lemma_outputs_agree`).
pub proof fn lemma_honest_run_blames_nobody(
    dkg_params: DkgParams,
    my: usize,
    states: Seq<PartyState>,
    parties: Parties,
    bs: Seq<DkgInitBroadcast<PolyWellFormedProof>>,
    e: DkgOutputError,
)
    requires
        dkg_params.n > 0,
        1 <= my <= dkg_params.n,
        run_parties(states, parties, dkg_params.n as int),
        run_dealings::<SchnorrPolyProof>((), bs, states, dkg_params.n as int, dkg_params.t as int, parties),
        forall|k: int| 0 <= k < bs.len() ==> !nonce_is_neutral((#[trigger] bs[k]).signature.bytes@),
    ensures
        !output_error_blames::<SchnorrPolyProof>(
            e,
            dkg_params,
            (),
            states[my - 1].enc_sk@,
            states[my - 1].enc_pk,
            my,
            bs,
            parties,
        ),
{
    let n = dkg_params.n as int;
    let t = dkg_params.t as int;
    let me = states[my - 1];
    assert(bs.len() == n);
    assert forall|k: int| 0 <= k < bs.len() implies #[trigger] honest_dealing(bs[k], states[k], n, t, parties)
        && proof_dealt::<SchnorrPolyProof>((), bs[k], n, t) by {}
    assert forall|k: int| 0 <= k < n implies dealt_honestly(#[trigger] bs[k], states[k], n, t) by {
        assert(honest_dealing(bs[k], states[k], n, t, parties));
    }
    assert(run_broadcasts(bs, states, n, t));
    lemma_honest_broadcasts_accepted(dkg_params, my, states, parties, bs);
    assert(init_structure_ok(n, my, bs));
    assert forall|i: int| 0 <= i < bs.len() && bs[i].dealer_idx != my implies {
        &&& (opened_share(me.enc_sk@, &(#[trigger] bs[i]).encrypted_shares, my) matches Some(p) && bs[i].pedvss@[my
            - 1]@ == com_dlog(p.0, p.1))
        &&& is_honest_pok(bs[i].encrypted_shares.u, bs[i].encrypted_shares.u@, bs[i].encrypted_shares.pok)
        &&& batch_check(seq![(bs[i].encrypted_shares.u, bs[i].encrypted_shares.pok)])
    } by {
        assert(honest_dealing(bs[i], states[i], n, t, parties));
        let (res, share) = choose|res: DkgInitResult<PolyWellFormedProof>, share: int|
            res.broadcast == bs[i] && init_honest(res, states[i], share, n, t) && shares_encrypted(
                res,
                share,
                states[i].dealer_idx,
                n,
                t,
                parties,
            );
        assert(states[my - 1].dealer_idx == my);
        lemma_honest_dealing_opens(bs[i], states[i], n, t, parties, me, my);
    }
    assert forall|i: int| 0 <= i < bs.len() implies !proof_refused::<SchnorrPolyProof>((), #[trigger] bs[i], n, t) by {
        lemma_honest_schnorr_proof_accepted(bs[i], n, t);
    }
    match e {
        DkgOutputError::InvalidSignature { dealer_idx } => {
            assert forall|i: int| 0 <= i < bs.len() && bs[i].dealer_idx == dealer_idx implies init_signature_ok(
                #[trigger] bs[i],
                parties.parties@[dealer_idx - 1].sig_pk,
            ) by {
                assert(broadcast_ok(n, parties, bs[i]));
            }
        },
        DkgOutputError::InvalidDecryptionOpening { dealer_idx, receiver_idx, s_ji, r_ji, pi_i } => {
            assert forall|i: int| 0 <= i < bs.len() && bs[i].dealer_idx == dealer_idx && dealer_idx != my && opened_share(
                me.enc_sk@,
                &(#[trigger] bs[i]).encrypted_shares,
                my,
            ) == Some((s_ji@, r_ji@)) implies bs[i].pedvss@[my - 1]@ == com_dlog(s_ji@, r_ji@) by {}
        },
        _ => {},
    }
}

} // verus!
