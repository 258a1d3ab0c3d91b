//! Whole runs of either protocol among freshly keyed parties, all in one
//! process, and the check that the parties' outputs agree.

use crate::error::{DkgOutputError, TwoRoundDkgError};
use crate::one_round::{
    dkg_initiate, dkg_output_key_generation, init_honest, output_error_blames, output_matches, proof_dealt, prove_may_fail, prove_ready,
    shares_encrypted,
    DkgInitBroadcast, DkgInitLocalState, DkgInitResult,
};
use crate::one_round::laws::honest_dealing;
use crate::one_round_proofs::PolyProofScheme;
use crate::party::{collect_public_parties, make_party_state, party_keys_match, Parties, PartyState};
use crate::pedersen::{com_dlog, PedersenCommitment};
use crate::scalar::Scalar;
use crate::two_round::{
    decom_prove_may_fail, decom_prove_ready, dkg_output, dkg_round1_initiate, dkg_round2_finalize, round1_check_blames,
    round1_decryption_blames, round1_honest, round1_shares_encrypted, round2_from, round2_output, round2_output_blames, Round1Broadcast,
    Round1LocalState, Round2Broadcast, Round2LocalState,
};
use crate::two_round_proofs::decom_proof::{DecomStatement, DecomWitness};
use crate::two_round_proofs::DecomProofScheme;
use crate::wire::WireCodec;
use crate::{DkgOutput, DkgParams};
use vstd::prelude::*;

verus! {

/// Why a set of outputs is inconsistent.
#[derive(Clone, Copy, Debug, PartialEq, Eq, Structural)]
pub enum OutputCheckError {
    Empty,
    InvalidIdx { idx: usize },
    DuplicateIdx { idx: usize },
    PublicKeyMismatch { idx: usize },
    ReferenceKeysLength { expected: usize, got: usize },
    KeysLength { idx: usize, expected: usize, got: usize },
    KeysMismatch { idx: usize },
    OpeningMismatch { idx: usize },
}

/// Why a whole run failed.
#[derive(Clone)]
pub enum RunError {
    /// `n` is zero.
    NoParties,
    /// `t` is not below `n`.
    ThresholdTooLarge,
    /// The proof system made no proof for this party.
    ProofFailed { party: usize },
    /// Round two failed for this party.
    Round2 { party: usize, err: TwoRoundDkgError },
    /// The output phase failed for this party (one-round protocol).
    Output { party: usize, err: DkgOutputError },
    /// The output phase failed for this party (two-round protocol).
    TwoRoundOutput { party: usize, err: TwoRoundDkgError },
    /// The outputs do not agree.
    Check { err: OutputCheckError },
}

/// The parties' indices are exactly `1..n`.
pub open spec fn indices_ok(outs: Seq<DkgOutput>) -> bool {
    &&& forall|i: int| 0 <= i < outs.len() ==> 1 <= (#[trigger] outs[i]).idx <= outs.len()
    &&& forall|i: int, j: int| 0 <= i < j < outs.len() ==> outs[i].idx != outs[j].idx
}

/// Two vectors of verification keys commit to the same elements.
pub open spec fn same_keys(a: Seq<PedersenCommitment>, b: Seq<PedersenCommitment>) -> bool {
    a.len() == b.len() && forall|k: int| 0 <= k < a.len() ==> (#[trigger] a[k])@ == b[k]@
}

/// The outputs agree: indices `1..n` once each, one public key, one vector of
/// `n` verification keys, and every party's share and blinding open its key.
pub open spec fn outputs_consistent(outs: Seq<DkgOutput>) -> bool {
    let n = outs.len();
    let vks = outs[0].partial_verification_keys@;
    &&& n > 0
    &&& indices_ok(outs)
    &&& forall|i: int| 0 <= i < n ==> (#[trigger] outs[i]).public_key@ == outs[0].public_key@
    &&& vks.len() == n
    &&& forall|i: int| 0 <= i < n ==> same_keys((#[trigger] outs[i]).partial_verification_keys@, vks)
    &&& forall|i: int|
        0 <= i < n ==> vks[(#[trigger] outs[i]).idx - 1]@ == com_dlog(outs[i].secret_share@, outs[i].blinding_share@)
}

/// The first index problem from output `i` on: an index outside `1..n`, or
/// one that an earlier output already has.
pub open spec fn idx_error(outs: Seq<DkgOutput>, i: int) -> Option<OutputCheckError>
    decreases outs.len() - i,
{
    if i < 0 || i >= outs.len() {
        None
    } else if outs[i].idx == 0 || outs[i].idx > outs.len() {
        Some(OutputCheckError::InvalidIdx { idx: outs[i].idx })
    } else if exists|q: int| 0 <= q < i && (#[trigger] outs[q]).idx == outs[i].idx {
        Some(OutputCheckError::DuplicateIdx { idx: outs[i].idx })
    } else {
        idx_error(outs, i + 1)
    }
}

/// The first output from `i` on whose public key differs from the first one's.
pub open spec fn pk_error(outs: Seq<DkgOutput>, i: int) -> Option<OutputCheckError>
    decreases outs.len() - i,
{
    if i < 0 || i >= outs.len() {
        None
    } else if outs[i].public_key@ != outs[0].public_key@ {
        Some(OutputCheckError::PublicKeyMismatch { idx: outs[i].idx })
    } else {
        pk_error(outs, i + 1)
    }
}

/// The first output from `i` on whose verification keys differ from the
/// first one's, in number or in value.
pub open spec fn keys_error(outs: Seq<DkgOutput>, i: int) -> Option<OutputCheckError>
    decreases outs.len() - i,
{
    if i < 0 || i >= outs.len() {
        None
    } else if outs[i].partial_verification_keys.len() != outs.len() {
        Some(
            OutputCheckError::KeysLength {
                idx: outs[i].idx,
                expected: outs.len() as usize,
                got: outs[i].partial_verification_keys.len(),
            },
        )
    } else if !same_keys(outs[i].partial_verification_keys@, outs[0].partial_verification_keys@) {
        Some(OutputCheckError::KeysMismatch { idx: outs[i].idx })
    } else {
        keys_error(outs, i + 1)
    }
}

/// The first output from `i` on whose share and blinding do not open its key.
pub open spec fn opening_error(outs: Seq<DkgOutput>, i: int) -> Option<OutputCheckError>
    decreases outs.len() - i,
{
    if i < 0 || i >= outs.len() {
        None
    } else if outs[0].partial_verification_keys@[outs[i].idx - 1]@ != com_dlog(
        outs[i].secret_share@,
        outs[i].blinding_share@,
    ) {
        Some(OutputCheckError::OpeningMismatch { idx: outs[i].idx })
    } else {
        opening_error(outs, i + 1)
    }
}

/// What the check reports of a set of outputs, checking in order: that there
/// are some, the indices, the public keys, the number of reference keys, every
/// party's keys, and the openings.
pub open spec fn output_check_error(outs: Seq<DkgOutput>) -> Option<OutputCheckError> {
    let n = outs.len();
    if n == 0 {
        Some(OutputCheckError::Empty)
    } else if idx_error(outs, 0) is Some {
        idx_error(outs, 0)
    } else if pk_error(outs, 1) is Some {
        pk_error(outs, 1)
    } else if outs[0].partial_verification_keys.len() != n {
        Some(
            OutputCheckError::ReferenceKeysLength {
                expected: n as usize,
                got: outs[0].partial_verification_keys.len(),
            },
        )
    } else if keys_error(outs, 1) is Some {
        keys_error(outs, 1)
    } else {
        opening_error(outs, 0)
    }
}

fn keys_equal(a: &Vec<PedersenCommitment>, b: &Vec<PedersenCommitment>) -> (r: bool)
    ensures
        r == same_keys(a@, b@),
{
    if a.len() != b.len() {
        return false;
    }
    let mut k: usize = 0;
    while k < a.len()
        invariant
            k <= a@.len(),
            a@.len() == b@.len(),
            forall|q: int| 0 <= q < k ==> (#[trigger] a@[q])@ == b@[q]@,
        decreases a@.len() - k,
    {
        if !a[k].equals(&b[k]) {
            return false;
        }
        k = k + 1;
    }
    true
}

/// Checks that the outputs of a run agree, naming the first party that does
/// not.
pub fn check_dkg_outputs(outputs: &[DkgOutput]) -> (r: Result<(), OutputCheckError>)
    ensures
        r is Ok <==> outputs_consistent(outputs@),
        outputs@.len() == 0 ==> r == Err::<(), OutputCheckError>(OutputCheckError::Empty),
        r == (match output_check_error(outputs@) {
            Some(e) => Err(e),
            None => Ok(()),
        }),
{
    if outputs.len() == 0 {
        return Err(OutputCheckError::Empty);
    }
    let n = outputs.len();
    let ghost outs = outputs@;
    let mut seen: Vec<bool> = Vec::new();
    let mut k: usize = 0;
    while k < n
        invariant
            k <= n,
            seen@.len() == k,
            forall|q: int| 0 <= q < k ==> !(#[trigger] seen@[q]),
        decreases n - k,
    {
        seen.push(false);
        k = k + 1;
    }
    let mut i: usize = 0;
    while i < n
        invariant
            i <= n,
            n == outs.len(),
            outs == outputs@,
            seen@.len() == n,
            forall|q: int| 0 <= q < i ==> 1 <= (#[trigger] outs[q]).idx <= n,
            forall|q: int, p: int| 0 <= q < p < i ==> outs[q].idx != outs[p].idx,
            forall|m: int| 0 <= m < n ==> (#[trigger] seen@[m] <==> exists|q: int| 0 <= q < i && outs[q].idx == m + 1),
            idx_error(outs, 0) == idx_error(outs, i as int),
        decreases n - i,
    {
        let idx = outputs[i].idx;
        if idx == 0 || idx > n {
            return Err(OutputCheckError::InvalidIdx { idx });
        }
        if seen[idx - 1] {
            proof {
                let q = choose|q: int| 0 <= q < i && outs[q].idx == idx;
                assert(outs[q].idx == outs[i as int].idx);
            }
            return Err(OutputCheckError::DuplicateIdx { idx });
        }
        seen.set(idx - 1, true);
        proof {
            assert(!exists|q: int| 0 <= q < i && (#[trigger] outs[q]).idx == outs[i as int].idx);
            assert(idx_error(outs, i as int) == idx_error(outs, i + 1));
            assert forall|m: int| 0 <= m < n implies (#[trigger] seen@[m] <==> exists|q: int|
                0 <= q < i + 1 && outs[q].idx == m + 1) by {
                if m == idx - 1 {
                    assert(outs[i as int].idx == m + 1);
                } else if seen@[m] {
                    let q = choose|q: int| 0 <= q < i && outs[q].idx == m + 1;
                    assert(0 <= q < i + 1 && outs[q].idx == m + 1);
                }
            }
        }
        i = i + 1;
    }
    assert(idx_error(outs, 0) is None);
    let reference_pk = outputs[0].public_key;
    let mut i: usize = 1;
    while i < n
        invariant
            1 <= i <= n,
            n == outputs@.len(),
            reference_pk == outputs@[0].public_key,
            forall|q: int| 0 <= q < i ==> (#[trigger] outputs@[q]).public_key@ == reference_pk@,
            pk_error(outputs@, 1) == pk_error(outputs@, i as int),
            idx_error(outputs@, 0) is None,
        decreases n - i,
    {
        if !outputs[i].public_key.equals(&reference_pk) {
            return Err(OutputCheckError::PublicKeyMismatch { idx: outputs[i].idx });
        }
        assert(pk_error(outputs@, i as int) == pk_error(outputs@, i + 1));
        i = i + 1;
    }
    assert(pk_error(outputs@, 1) is None);
    let reference_vks = &outputs[0].partial_verification_keys;
    if reference_vks.len() != n {
        return Err(OutputCheckError::ReferenceKeysLength { expected: n, got: reference_vks.len() });
    }
    let mut i: usize = 1;
    while i < n
        invariant
            1 <= i <= n,
            n == outputs@.len(),
            *reference_vks == outputs@[0].partial_verification_keys,
            reference_vks@.len() == n,
            forall|q: int| 0 <= q < i ==> same_keys((#[trigger] outputs@[q]).partial_verification_keys@, reference_vks@),
            keys_error(outputs@, 1) == keys_error(outputs@, i as int),
            idx_error(outputs@, 0) is None,
            pk_error(outputs@, 1) is None,
        decreases n - i,
    {
        let out = &outputs[i];
        if out.partial_verification_keys.len() != n {
            return Err(OutputCheckError::KeysLength { idx: out.idx, expected: n, got: out.partial_verification_keys.len() });
        }
        if !keys_equal(&out.partial_verification_keys, reference_vks) {
            return Err(OutputCheckError::KeysMismatch { idx: out.idx });
        }
        assert(keys_error(outputs@, i as int) == keys_error(outputs@, i + 1));
        i = i + 1;
    }
    assert(keys_error(outputs@, 1) is None);
    let mut i: usize = 0;
    while i < n
        invariant
            i <= n,
            n == outs.len(),
            outs == outputs@,
            *reference_vks == outputs@[0].partial_verification_keys,
            reference_vks@.len() == n,
            forall|q: int| 0 <= q < n ==> 1 <= (#[trigger] outs[q]).idx <= n,
            forall|q: int|
                0 <= q < i ==> reference_vks@[(#[trigger] outs[q]).idx - 1]@ == com_dlog(
                    outs[q].secret_share@,
                    outs[q].blinding_share@,
                ),
            opening_error(outs, 0) == opening_error(outs, i as int),
            idx_error(outs, 0) is None,
            pk_error(outs, 1) is None,
            keys_error(outs, 1) is None,
        decreases n - i,
    {
        let out = &outputs[i];
        let vk_i = &reference_vks[out.idx - 1];
        if !vk_i.matches_opening(out.secret_share, out.blinding_share) {
            return Err(OutputCheckError::OpeningMismatch { idx: out.idx });
        }
        assert(opening_error(outs, i as int) == opening_error(outs, i + 1));
        i = i + 1;
    }
    assert(opening_error(outs, 0) is None);
    proof {
        assert(same_keys(outs[0].partial_verification_keys@, reference_vks@));
    }
    Ok(())
}

/// The parties of a run: party `k + 1` at position `k`, each with keys that
/// belong together, and the public keys of each in `parties`.
pub open spec fn run_parties(states: Seq<PartyState>, parties: Parties, n: int) -> bool {
    &&& states.len() == n
    &&& parties.parties@.len() == n
    &&& forall|k: int|
        0 <= k < n ==> {
            &&& (#[trigger] states[k]).dealer_idx == k + 1
            &&& party_keys_match(states[k])
            &&& parties.parties@[k].enc_pk == states[k].enc_pk
            &&& parties.parties@[k].sig_pk == states[k].sig_pk
        }
}

/// The broadcast of some honest first phase of `state`.
pub open spec fn dealt_honestly<P: WireCodec>(b: DkgInitBroadcast<P>, state: PartyState, n: int, t: int) -> bool {
    exists|res: DkgInitResult<P>, share: int|
        #![trigger init_honest(res, state, share, n, t)]
        res.broadcast == b && init_honest(res, state, share, n, t)
}

/// Each broadcast is an honest first phase of the party at its position.
pub open spec fn run_broadcasts<P: WireCodec>(bs: Seq<DkgInitBroadcast<P>>, states: Seq<PartyState>, n: int, t: int) -> bool {
    &&& bs.len() == n
    &&& forall|k: int| 0 <= k < n ==> dealt_honestly(#[trigger] bs[k], states[k], n, t)
}

/// Each broadcast was dealt honestly by the party at its position, with its
/// shares encrypted to the parties and its proof made by the proof system
/// on the statement the broadcast defines.
pub open spec fn run_dealings<S: PolyProofScheme>(
    pp: S::Params,
    bs: Seq<DkgInitBroadcast<S::Proof>>,
    states: Seq<PartyState>,
    n: int,
    t: int,
    parties: Parties,
) -> bool where S::Proof: WireCodec {
    &&& bs.len() == n
    &&& forall|k: int|
        0 <= k < n ==> honest_dealing(#[trigger] bs[k], states[k], n, t, parties) && proof_dealt::<S>(pp, bs[k], n, t)
}

/// Each output is what the party at its position computes from the
/// broadcasts and its own first-phase state.
pub open spec fn run_outputs<P>(
    outs: Seq<DkgOutput>,
    states: Seq<PartyState>,
    locals: Seq<DkgInitLocalState>,
    bs: Seq<DkgInitBroadcast<P>>,
    n: int,
) -> bool {
    &&& outs.len() == n
    &&& forall|q: int|
        0 <= q < n ==> output_matches(#[trigger] outs[q], states[q].enc_sk@, (q + 1) as usize, n, locals[q], bs)
}

/// The round-one broadcast of some honest round one of `state`.
pub open spec fn round1_dealt_honestly<S: DecomProofScheme<Statement = DecomStatement, Witness = DecomWitness>>(
    dp: S::Params,
    b: Round1Broadcast<S::Proof>,
    state: PartyState,
    t: int,
) -> bool where S::Proof: WireCodec {
    exists|share: int, l: Round1LocalState|
        #![trigger round1_honest::<S>(dp, state, share, t, b, l)]
        round1_honest::<S>(dp, state, share, t, b, l)
}

/// Broadcast `b` and state `l` are some honest round one of `state`, which
/// encrypted its evaluations to the `n` parties.
pub open spec fn round1_dealt_with<S: DecomProofScheme<Statement = DecomStatement, Witness = DecomWitness>>(
    dp: S::Params,
    b: Round1Broadcast<S::Proof>,
    l: Round1LocalState,
    state: PartyState,
    n: int,
    t: int,
    parties: Parties,
) -> bool where S::Proof: WireCodec {
    exists|share: int|
        #![trigger round1_honest::<S>(dp, state, share, t, b, l)]
        round1_honest::<S>(dp, state, share, t, b, l) && round1_shares_encrypted(b, l, share, state.dealer_idx, n, t, parties)
}

/// Each round-one broadcast and kept state is an honest round one of the
/// party at its position.
pub open spec fn run_round1<S: DecomProofScheme<Statement = DecomStatement, Witness = DecomWitness>>(
    dp: S::Params,
    msgs: Seq<Round1Broadcast<S::Proof>>,
    locals: Seq<Round1LocalState>,
    states: Seq<PartyState>,
    n: int,
    t: int,
    parties: Parties,
) -> bool where S::Proof: WireCodec {
    &&& msgs.len() == n
    &&& locals.len() == n
    &&& forall|k: int| 0 <= k < n ==> round1_dealt_with::<S>(dp, #[trigger] msgs[k], locals[k], states[k], n, t, parties)
}

/// Each round-two broadcast and state is round two of the party at its
/// position.
pub open spec fn run_round2<P>(
    r2: Seq<Round2Broadcast>,
    l2s: Seq<Round2LocalState>,
    states: Seq<PartyState>,
    msgs: Seq<Round1Broadcast<P>>,
    locals: Seq<Round1LocalState>,
    n: int,
    t: int,
) -> bool {
    &&& r2.len() == n
    &&& l2s.len() == n
    &&& forall|k: int| 0 <= k < n ==> round2_from((#[trigger] r2[k], l2s[k]), states[k], locals[k], msgs, n, t)
}

/// Each output is what the party at its position computes in the output
/// phase of the two-round protocol.
pub open spec fn run_round2_outputs(outs: Seq<DkgOutput>, l2s: Seq<Round2LocalState>, r2: Seq<Round2Broadcast>, n: int) -> bool {
    &&& outs.len() == n
    &&& forall|q: int| 0 <= q < n ==> round2_output(#[trigger] outs[q], (q + 1) as usize, n, l2s[q], r2)
}

/// Fresh keys for parties `1..n`, in order.
fn make_parties(n: usize) -> (r: (Vec<PartyState>, Parties))
    ensures
        r.0@.len() == n,
        r.1.parties@.len() == n,
        forall|i: int| 0 <= i < n ==> (#[trigger] r.0@[i]).dealer_idx == i + 1,
        run_parties(r.0@, r.1, n as int),
{
    let mut states: Vec<PartyState> = Vec::new();
    let mut i: usize = 0;
    while i < n
        invariant
            i <= n,
            states@.len() == i,
            forall|q: int| 0 <= q < i ==> (#[trigger] states@[q]).dealer_idx == q + 1,
            forall|q: int| 0 <= q < i ==> party_keys_match(#[trigger] states@[q]),
        decreases n - i,
    {
        states.push(make_party_state(i + 1));
        i = i + 1;
    }
    let parties = collect_public_parties(states.as_slice());
    (states, parties)
}

/// One random secret per party.
fn random_secrets(n: usize) -> (r: Vec<Scalar>)
    ensures
        r@.len() == n,
{
    let mut out: Vec<Scalar> = Vec::new();
    let mut i: usize = 0;
    while i < n
        invariant
            i <= n,
            out@.len() == i,
        decreases n - i,
    {
        out.push(Scalar::random());
        i = i + 1;
    }
    out
}

/// Runs the one-round protocol among `n` fresh parties with random secrets
/// and checks that the outputs agree. Any success is a run whose outputs
/// agree.
pub fn run_dkg_once_for_test<S: PolyProofScheme>(
    dkg_params: &DkgParams,
    proof_params: &S::Params,
) -> (r: Result<(Vec<DkgOutput>, Vec<DkgInitBroadcast<S::Proof>>), RunError>) where S::Proof: WireCodec
    requires
        prove_ready::<S>(*proof_params, dkg_params.n as int, dkg_params.t as int),
    ensures
        dkg_params.n == 0 ==> r matches Err(RunError::NoParties),
        dkg_params.n > 0 && dkg_params.t >= dkg_params.n ==> r matches Err(RunError::ThresholdTooLarge),
        r matches Ok((outs, bs)) ==> outs@.len() == dkg_params.n && bs@.len() == dkg_params.n
            && outputs_consistent(outs@),
        r matches Err(RunError::NoParties) ==> dkg_params.n == 0,
        r matches Err(RunError::ThresholdTooLarge) ==> dkg_params.n > 0 && dkg_params.t >= dkg_params.n,
        r matches Err(RunError::ProofFailed { party }) ==> 1 <= party <= dkg_params.n && exists|s: int|
            #[trigger] prove_may_fail::<S>(*proof_params, s, dkg_params.n as int, dkg_params.t as int),
        r matches Err(RunError::Output { party, err }) ==> 1 <= party <= dkg_params.n && exists|
            states: Seq<PartyState>,
            parties: Parties,
            bs: Seq<DkgInitBroadcast<S::Proof>>,
        |
            #![trigger run_broadcasts(bs, states, dkg_params.n as int, dkg_params.t as int), run_parties(states, parties, dkg_params.n as int)]
            run_parties(states, parties, dkg_params.n as int) && run_broadcasts(
                bs,
                states,
                dkg_params.n as int,
                dkg_params.t as int,
            ) && run_dealings::<S>(*proof_params, bs, states, dkg_params.n as int, dkg_params.t as int, parties)
                && output_error_blames::<S>(
                err,
                *dkg_params,
                *proof_params,
                states[party - 1].enc_sk@,
                states[party - 1].enc_pk,
                party,
                bs,
                parties,
            ),
        r matches Err(RunError::Check { err }) ==> exists|
            states: Seq<PartyState>,
            parties: Parties,
            bs: Seq<DkgInitBroadcast<S::Proof>>,
            locals: Seq<DkgInitLocalState>,
            outs: Seq<DkgOutput>,
        |
            #![trigger run_broadcasts(bs, states, dkg_params.n as int, dkg_params.t as int), run_parties(states, parties, dkg_params.n as int), run_outputs(outs, states, locals, bs, dkg_params.n as int)]
            run_parties(states, parties, dkg_params.n as int) && run_broadcasts(
                bs,
                states,
                dkg_params.n as int,
                dkg_params.t as int,
            ) && run_outputs(outs, states, locals, bs, dkg_params.n as int) && !outputs_consistent(outs),
        !(r matches Err(RunError::Round2 { .. })) && !(r matches Err(RunError::TwoRoundOutput { .. })),
{
    let n = dkg_params.n;
    let t = dkg_params.t;
    if n == 0 {
        return Err(RunError::NoParties);
    }
    if t >= n {
        return Err(RunError::ThresholdTooLarge);
    }
    let (party_states, parties) = make_parties(n);
    let dealer_secrets = random_secrets(n);
    let mut broadcasts: Vec<DkgInitBroadcast<S::Proof>> = Vec::new();
    let mut locals: Vec<DkgInitLocalState> = Vec::new();
    let ghost mut rs: Seq<DkgInitResult<S::Proof>> = Seq::empty();
    let ghost mut shs: Seq<int> = Seq::empty();
    let mut i: usize = 0;
    while i < n
        invariant
            i <= n,
            n == dkg_params.n,
            t == dkg_params.t,
            dkg_params.t < dkg_params.n,
            t < n,
            party_states@.len() == n,
            parties.parties@.len() == n,
            dealer_secrets@.len() == n,
            forall|q: int| 0 <= q < n ==> (#[trigger] party_states@[q]).dealer_idx == q + 1,
            prove_ready::<S>(*proof_params, dkg_params.n as int, dkg_params.t as int),
            broadcasts@.len() == i,
            locals@.len() == i,
            run_parties(party_states@, parties, n as int),
            rs.len() == i,
            shs.len() == i,
            forall|k: int|
                0 <= k < i ==> (#[trigger] rs[k]).broadcast == broadcasts@[k] && init_honest(
                    rs[k],
                    party_states@[k],
                    shs[k],
                    n as int,
                    t as int,
                ),
            forall|k: int|
                0 <= k < i ==> shares_encrypted(#[trigger] rs[k], shs[k], party_states@[k].dealer_idx, n as int, t as int, parties)
                    && proof_dealt::<S>(*proof_params, rs[k].broadcast, n as int, t as int),
        decreases n - i,
    {
        let res = match dkg_initiate::<S>(dkg_params, proof_params, &party_states[i], dealer_secrets[i], &parties) {
            Some(res) => res,
            None => {
                return Err(RunError::ProofFailed { party: i + 1 });
            },
        };
        proof {
            rs = rs.push(res);
            shs = shs.push(dealer_secrets@[i as int]@);
        }
        broadcasts.push(res.broadcast);
        locals.push(res.local);
        i = i + 1;
    }
    proof {
        assert forall|k: int| 0 <= k < n implies dealt_honestly(#[trigger] broadcasts@[k], party_states@[k], n as int, t as int) by {
            assert(init_honest(rs[k], party_states@[k], shs[k], n as int, t as int));
        }
        assert(broadcasts@.len() == n as int);
        assert(run_broadcasts(broadcasts@, party_states@, n as int, t as int));
        assert forall|k: int| 0 <= k < n implies honest_dealing(#[trigger] broadcasts@[k], party_states@[k], n as int, t as int, parties)
            && proof_dealt::<S>(*proof_params, broadcasts@[k], n as int, t as int) by {
            assert(init_honest(rs[k], party_states@[k], shs[k], n as int, t as int));
            assert(shares_encrypted(rs[k], shs[k], party_states@[k].dealer_idx, n as int, t as int, parties));
        }
        assert(run_dealings::<S>(*proof_params, broadcasts@, party_states@, n as int, t as int, parties));
    }
    let mut outputs: Vec<DkgOutput> = Vec::new();
    let mut i: usize = 0;
    while i < n
        invariant
            i <= n,
            n == dkg_params.n,
            t == dkg_params.t,
            dkg_params.t < dkg_params.n,
            party_states@.len() == n,
            parties.parties@.len() == n,
            locals@.len() == n,
            outputs@.len() == i,
            run_parties(party_states@, parties, n as int),
            run_broadcasts(broadcasts@, party_states@, n as int, t as int),
            run_dealings::<S>(*proof_params, broadcasts@, party_states@, n as int, t as int, parties),
            forall|q: int|
                0 <= q < i ==> output_matches(
                    #[trigger] outputs@[q],
                    party_states@[q].enc_sk@,
                    (q + 1) as usize,
                    n as int,
                    locals@[q],
                    broadcasts@,
                ),
        decreases n - i,
    {
        match dkg_output_key_generation::<S>(dkg_params, proof_params, &party_states[i], &locals[i], broadcasts.as_slice(), &parties) {
            Ok(out) => {
                outputs.push(out);
            },
            Err(err) => {
                proof {
                    assert(party_states@[i as int].dealer_idx == i + 1);
                }
                return Err(RunError::Output { party: i + 1, err });
            },
        }
        i = i + 1;
    }
    match check_dkg_outputs(outputs.as_slice()) {
        Ok(()) => {},
        Err(err) => {
            proof {
                assert(run_outputs(outputs@, party_states@, locals@, broadcasts@, n as int));
            }
            return Err(RunError::Check { err });
        },
    }
    Ok((outputs, broadcasts))
}

/// Runs the two-round protocol among `n` fresh parties with random secrets
/// and checks that the outputs agree. Any success is a run whose outputs
/// agree.
pub fn run_two_round_dkg_once_for_test<S: DecomProofScheme<Statement = DecomStatement, Witness = DecomWitness>>(
    dkg_params: &DkgParams,
    decom_params: &S::Params,
) -> (r: Result<(Vec<DkgOutput>, Vec<Round1Broadcast<S::Proof>>, Vec<Round2Broadcast>), RunError>) where
    S::Proof: WireCodec,
    requires
        dkg_params.n < usize::MAX,
        decom_prove_ready::<S>(*decom_params, dkg_params.t as int),
    ensures
        dkg_params.n == 0 ==> r matches Err(RunError::NoParties),
        dkg_params.n > 0 && dkg_params.t >= dkg_params.n ==> r matches Err(RunError::ThresholdTooLarge),
        r matches Ok((outs, r1, r2)) ==> outs@.len() == dkg_params.n && r1@.len() == dkg_params.n
            && r2@.len() == dkg_params.n && outputs_consistent(outs@),
        r matches Err(RunError::NoParties) ==> dkg_params.n == 0,
        r matches Err(RunError::ThresholdTooLarge) ==> dkg_params.n > 0 && dkg_params.t >= dkg_params.n,
        r matches Err(RunError::ProofFailed { party }) ==> 1 <= party <= dkg_params.n && exists|s: int|
            #[trigger] decom_prove_may_fail::<S>(*decom_params, s, dkg_params.t as int),
        r matches Err(RunError::Round2 { party, err }) ==> 1 <= party <= dkg_params.n && exists|
            states: Seq<PartyState>,
            parties: Parties,
            msgs: Seq<Round1Broadcast<S::Proof>>,
            locals: Seq<Round1LocalState>,
        |
            #![trigger run_round1::<S>(*decom_params, msgs, locals, states, dkg_params.n as int, dkg_params.t as int, parties), run_parties(states, parties, dkg_params.n as int)]
            run_parties(states, parties, dkg_params.n as int) && run_round1::<S>(
                *decom_params,
                msgs,
                locals,
                states,
                dkg_params.n as int,
                dkg_params.t as int,
                parties,
            ) && (round1_check_blames::<S>(err, *dkg_params, *decom_params, party, msgs, parties)
                || round1_decryption_blames(err, states[party - 1].enc_sk@, states[party - 1].enc_pk, party, msgs)),
        r matches Err(RunError::TwoRoundOutput { party, err }) ==> 1 <= party <= dkg_params.n && exists|
            states: Seq<PartyState>,
            parties: Parties,
            msgs: Seq<Round1Broadcast<S::Proof>>,
            locals: Seq<Round1LocalState>,
            r2: Seq<Round2Broadcast>,
            l2s: Seq<Round2LocalState>,
        |
            #![trigger run_round1::<S>(*decom_params, msgs, locals, states, dkg_params.n as int, dkg_params.t as int, parties), run_parties(states, parties, dkg_params.n as int), run_round2(r2, l2s, states, msgs, locals, dkg_params.n as int, dkg_params.t as int)]
            run_parties(states, parties, dkg_params.n as int) && run_round1::<S>(
                *decom_params,
                msgs,
                locals,
                states,
                dkg_params.n as int,
                dkg_params.t as int,
                parties,
            ) && run_round2(r2, l2s, states, msgs, locals, dkg_params.n as int, dkg_params.t as int) && round2_output_blames(
                err,
                *dkg_params,
                party,
                l2s[party - 1],
                r2,
                parties,
            ),
        r matches Err(RunError::Check { err }) ==> exists|
            states: Seq<PartyState>,
            parties: Parties,
            msgs: Seq<Round1Broadcast<S::Proof>>,
            locals: Seq<Round1LocalState>,
            r2: Seq<Round2Broadcast>,
            l2s: Seq<Round2LocalState>,
            outs: Seq<DkgOutput>,
        |
            #![trigger run_round1::<S>(*decom_params, msgs, locals, states, dkg_params.n as int, dkg_params.t as int, parties), run_parties(states, parties, dkg_params.n as int), run_round2(r2, l2s, states, msgs, locals, dkg_params.n as int, dkg_params.t as int), run_round2_outputs(outs, l2s, r2, dkg_params.n as int)]
            run_parties(states, parties, dkg_params.n as int) && run_round1::<S>(
                *decom_params,
                msgs,
                locals,
                states,
                dkg_params.n as int,
                dkg_params.t as int,
                parties,
            ) && run_round2(r2, l2s, states, msgs, locals, dkg_params.n as int, dkg_params.t as int) && run_round2_outputs(
                outs,
                l2s,
                r2,
                dkg_params.n as int,
            ) && !outputs_consistent(outs),
        !(r matches Err(RunError::Output { .. })),
{
    let n = dkg_params.n;
    let t = dkg_params.t;
    if n == 0 {
        return Err(RunError::NoParties);
    }
    if t >= n {
        return Err(RunError::ThresholdTooLarge);
    }
    let (party_states, parties) = make_parties(n);
    let dealer_secrets = random_secrets(n);
    let mut round1: Vec<Round1Broadcast<S::Proof>> = Vec::new();
    let mut locals: Vec<Round1LocalState> = Vec::new();
    let ghost mut shs: Seq<int> = Seq::empty();
    let mut i: usize = 0;
    while i < n
        invariant
            i <= n,
            n == dkg_params.n,
            t == dkg_params.t,
            dkg_params.t < dkg_params.n,
            n < usize::MAX,
            t < n,
            party_states@.len() == n,
            parties.parties@.len() == n,
            dealer_secrets@.len() == n,
            forall|q: int| 0 <= q < n ==> (#[trigger] party_states@[q]).dealer_idx == q + 1,
            decom_prove_ready::<S>(*decom_params, dkg_params.t as int),
            round1@.len() == i,
            locals@.len() == i,
            run_parties(party_states@, parties, n as int),
            shs.len() == i,
            forall|k: int|
                0 <= k < i ==> round1_honest::<S>(*decom_params, party_states@[k], shs[k], t as int, #[trigger] round1@[k], locals@[k]),
            forall|k: int|
                0 <= k < i ==> round1_shares_encrypted(
                    #[trigger] round1@[k],
                    locals@[k],
                    shs[k],
                    party_states@[k].dealer_idx,
                    n as int,
                    t as int,
                    parties,
                ),
        decreases n - i,
    {
        let (b, l) = match dkg_round1_initiate::<S>(dkg_params, decom_params, &party_states[i], dealer_secrets[i], &parties) {
            Some(x) => x,
            None => {
                return Err(RunError::ProofFailed { party: i + 1 });
            },
        };
        proof {
            shs = shs.push(dealer_secrets@[i as int]@);
        }
        round1.push(b);
        locals.push(l);
        i = i + 1;
    }
    proof {
        assert forall|k: int| 0 <= k < n implies round1_dealt_with::<S>(
            *decom_params,
            #[trigger] round1@[k],
            locals@[k],
            party_states@[k],
            n as int,
            t as int,
            parties,
        ) by {
            assert(round1_honest::<S>(*decom_params, party_states@[k], shs[k], t as int, round1@[k], locals@[k]));
            assert(round1_shares_encrypted(round1@[k], locals@[k], shs[k], party_states@[k].dealer_idx, n as int, t as int, parties));
        }
        assert(round1@.len() == n as int);
        assert(run_round1::<S>(*decom_params, round1@, locals@, party_states@, n as int, t as int, parties));
    }
    let mut round2: Vec<Round2Broadcast> = Vec::new();
    let mut locals2: Vec<Round2LocalState> = Vec::new();
    let mut i: usize = 0;
    while i < n
        invariant
            i <= n,
            n == dkg_params.n,
            t == dkg_params.t,
            dkg_params.t < dkg_params.n,
            n < usize::MAX,
            t < n,
            party_states@.len() == n,
            parties.parties@.len() == n,
            locals@.len() == n,
            forall|q: int| 0 <= q < n ==> (#[trigger] party_states@[q]).dealer_idx == q + 1,
            round2@.len() == i,
            forall|q: int| 0 <= q < i ==> (#[trigger] round2@[q]).dealer_idx == q + 1,
            locals2@.len() == i,
            run_parties(party_states@, parties, n as int),
            run_round1::<S>(*decom_params, round1@, locals@, party_states@, n as int, t as int, parties),
            forall|q: int|
                0 <= q < i ==> round2_from(
                    (#[trigger] round2@[q], locals2@[q]),
                    party_states@[q],
                    locals@[q],
                    round1@,
                    n as int,
                    t as int,
                ),
        decreases n - i,
    {
        match dkg_round2_finalize::<S>(dkg_params, decom_params, &party_states[i], &locals[i], round1.as_slice(), &parties) {
            Ok((b, l)) => {
                round2.push(b);
                locals2.push(l);
            },
            Err(err) => {
                proof {
                    assert(party_states@[i as int].dealer_idx == i + 1);
                }
                return Err(RunError::Round2 { party: i + 1, err });
            },
        }
        i = i + 1;
    }
    proof {
        assert(run_round2(round2@, locals2@, party_states@, round1@, locals@, n as int, t as int));
    }
    let mut outputs: Vec<DkgOutput> = Vec::new();
    let mut i: usize = 0;
    while i < n
        invariant
            i <= n,
            n == dkg_params.n,
            t == dkg_params.t,
            dkg_params.t < dkg_params.n,
            n < usize::MAX,
            party_states@.len() == n,
            forall|q: int| 0 <= q < n ==> (#[trigger] party_states@[q]).dealer_idx == q + 1,
            parties.parties@.len() == n,
            locals2@.len() == n,
            round2@.len() == n,
            forall|q: int| 0 <= q < n ==> (#[trigger] round2@[q]).dealer_idx == q + 1,
            outputs@.len() == i,
            run_parties(party_states@, parties, n as int),
            run_round1::<S>(*decom_params, round1@, locals@, party_states@, n as int, t as int, parties),
            run_round2(round2@, locals2@, party_states@, round1@, locals@, n as int, t as int),
            forall|q: int| 0 <= q < i ==> round2_output(#[trigger] outputs@[q], (q + 1) as usize, n as int, locals2@[q], round2@),
        decreases n - i,
    {
        match dkg_output::<S>(dkg_params, decom_params, &party_states[i], &locals2[i], round1.as_slice(), round2.as_slice(), &parties) {
            Ok(out) => {
                outputs.push(out);
            },
            Err(err) => {
                proof {
                    assert(party_states@[i as int].dealer_idx == i + 1);
                }
                return Err(RunError::TwoRoundOutput { party: i + 1, err });
            },
        }
        i = i + 1;
    }
    match check_dkg_outputs(outputs.as_slice()) {
        Ok(()) => {},
        Err(err) => {
            proof {
                assert(run_round2_outputs(outputs@, locals2@, round2@, n as int));
            }
            return Err(RunError::Check { err });
        },
    }
    Ok((outputs, round1, round2))
}

} // verus!
