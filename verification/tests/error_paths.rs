// Every error a party can return on malformed or adversarial input. The
// errors that name a dealer are what the complaint path acts on, so each test
// also checks that the named index is the one that misbehaved.

use janus::group::g;
use janus::one_round::{
    batch_verify_signatures, dkg_initiate, dkg_output_key_generation, dkg_output_key_generation_from_wire, DkgInitBroadcast,
    DkgInitLocalState,
};
use janus::one_round_proofs::{PolyProofScheme, SchnorrPolyProof};
use janus::party::{collect_public_parties, make_party_state, Parties, PartyState};
use janus::pedersen::PedersenCommitment;
use janus::scalar::Scalar;
use janus::two_round::{dkg_output, dkg_round1_initiate, dkg_round2_finalize, Round1Broadcast, Round1LocalState, Round2Broadcast, Round2LocalState};
use janus::two_round_proofs::{DecomProofScheme, SchnorrDecomProof, SchnorrDecomProofParams};
use janus::{DkgOutput, DkgOutputError, DkgParams, TwoRoundDkgError};

const PARAMS: DkgParams = DkgParams { t: 2, n: 5 };

type SchnorrProof = <SchnorrPolyProof as PolyProofScheme>::Proof;
type R1Msg = Round1Broadcast<<SchnorrDecomProof as DecomProofScheme>::Proof>;

fn err_of<T, E>(r: Result<T, E>) -> E {
    match r {
        Ok(_) => panic!("expected an error"),
        Err(e) => e,
    }
}

fn one_round_setup() -> (Vec<PartyState>, Parties, Vec<DkgInitBroadcast<SchnorrProof>>, Vec<DkgInitLocalState>) {
    let states: Vec<PartyState> = (1..=PARAMS.n).map(make_party_state).collect();
    let parties = collect_public_parties(&states);
    let mut broadcasts = Vec::new();
    let mut locals = Vec::new();
    for i in 1..=PARAMS.n {
        let res = dkg_initiate::<SchnorrPolyProof>(&PARAMS, &(), &states[i - 1], Scalar::random(), &parties)
            .expect("the proof system makes a proof");
        broadcasts.push(res.broadcast);
        locals.push(res.local);
    }
    (states, parties, broadcasts, locals)
}

fn run_output(
    states: &[PartyState],
    parties: &Parties,
    broadcasts: &[DkgInitBroadcast<SchnorrProof>],
    locals: &[DkgInitLocalState],
    receiver: usize,
) -> Result<DkgOutput, DkgOutputError> {
    dkg_output_key_generation::<SchnorrPolyProof>(&PARAMS, &(), &states[receiver - 1], &locals[receiver - 1], broadcasts, parties)
}

#[test]
fn receiver_index_out_of_range_is_rejected() {
    let (states, parties, broadcasts, locals) = one_round_setup();
    let bad = DkgParams { t: PARAMS.t, n: 0 };
    let err = err_of(dkg_output_key_generation::<SchnorrPolyProof>(&bad, &(), &states[0], &locals[0], &broadcasts, &parties));
    assert!(matches!(err, DkgOutputError::InvalidParameters));
}

#[test]
fn duplicate_dealer_is_rejected() {
    let (states, parties, mut broadcasts, locals) = one_round_setup();
    broadcasts[1] = broadcasts[0].clone();
    let err = err_of(run_output(&states, &parties, &broadcasts, &locals, 1));
    assert!(matches!(err, DkgOutputError::InvalidParameters));
}

#[test]
fn missing_dealer_is_rejected() {
    let (states, parties, mut broadcasts, locals) = one_round_setup();
    broadcasts.pop();
    let err = err_of(run_output(&states, &parties, &broadcasts, &locals, 1));
    assert!(matches!(err, DkgOutputError::InvalidParameters));
}

#[test]
fn short_commitment_vector_is_rejected() {
    let (states, parties, mut broadcasts, locals) = one_round_setup();
    broadcasts[2].pedvss.pop();
    let err = err_of(run_output(&states, &parties, &broadcasts, &locals, 1));
    assert!(matches!(err, DkgOutputError::InvalidParameters));
}

#[test]
fn tampered_broadcast_names_its_dealer() {
    let (states, parties, mut broadcasts, locals) = one_round_setup();
    broadcasts[2].f0_commitment = broadcasts[2].f0_commitment.add(&g());
    match err_of(run_output(&states, &parties, &broadcasts, &locals, 1)) {
        DkgOutputError::InvalidSignature { dealer_idx } => assert_eq!(dealer_idx, 3),
        _ => panic!("expected InvalidSignature"),
    }
}

#[test]
fn batch_signature_check_accepts_honest_and_refuses_tampered_broadcasts() {
    let (_states, parties, mut broadcasts, _locals) = one_round_setup();
    assert!(batch_verify_signatures(&broadcasts, &parties));
    broadcasts[2].f0_commitment = broadcasts[2].f0_commitment.add(&g());
    assert!(!batch_verify_signatures(&broadcasts, &parties));
}

// A dealer that swaps in another dealer's proof keeps a valid signature, since
// it re-signs its own message, but the proof no longer verifies.
#[test]
fn invalid_well_formedness_proof_names_its_dealer() {
    let (states, parties, mut broadcasts, locals) = one_round_setup();
    let stolen = broadcasts[0].proof.clone();
    broadcasts[3] = DkgInitBroadcast::new(
        4,
        broadcasts[3].pedvss.clone(),
        broadcasts[3].f0_commitment,
        stolen,
        broadcasts[3].encrypted_shares.clone(),
        &states[3].sig_sk,
    );
    match err_of(run_output(&states, &parties, &broadcasts, &locals, 1)) {
        DkgOutputError::InvalidBatchProof { dealer_idx } => assert_eq!(dealer_idx, 4),
        _ => panic!("expected InvalidBatchProof"),
    }
}

// A dealer that drops the receiver's ciphertext, then re-signs, is caught at
// the decryption step.
#[test]
fn missing_ciphertext_names_both_parties() {
    let (states, parties, mut broadcasts, locals) = one_round_setup();
    let receiver = 1usize;
    let mut shares = broadcasts[2].encrypted_shares.clone();
    shares.shares.remove(&receiver);
    broadcasts[2] = DkgInitBroadcast::new(
        3,
        broadcasts[2].pedvss.clone(),
        broadcasts[2].f0_commitment,
        broadcasts[2].proof.clone(),
        shares,
        &states[2].sig_sk,
    );
    match err_of(run_output(&states, &parties, &broadcasts, &locals, receiver)) {
        DkgOutputError::MissingCiphertext { dealer_idx, receiver_idx } => {
            assert_eq!(dealer_idx, 3);
            assert_eq!(receiver_idx, receiver);
        },
        _ => panic!("expected MissingCiphertext"),
    }
}

// The proof of knowledge of the ephemeral key binds the batch to its sender;
// a broken one is attributed before anything is decrypted.
#[test]
fn invalid_encryption_proof_names_its_dealer() {
    let (states, parties, mut broadcasts, locals) = one_round_setup();
    let mut shares = broadcasts[1].encrypted_shares.clone();
    shares.u = shares.u.add(&g());
    broadcasts[1] = DkgInitBroadcast::new(
        2,
        broadcasts[1].pedvss.clone(),
        broadcasts[1].f0_commitment,
        broadcasts[1].proof.clone(),
        shares,
        &states[1].sig_sk,
    );
    match err_of(run_output(&states, &parties, &broadcasts, &locals, 1)) {
        DkgOutputError::InvalidEncryptionProof { dealer_idx } => assert_eq!(dealer_idx, 2),
        _ => panic!("expected InvalidEncryptionProof"),
    }
}

// The channel path reports one error for anything that fails to decode or to
// authenticate, since no dealer can be named yet.
#[test]
fn malformed_wire_message_is_rejected() {
    let (states, parties, broadcasts, locals) = one_round_setup();
    let mut wire: Vec<Vec<u8>> = broadcasts.iter().map(|b| b.to_wire()).collect();
    let mid = wire[2].len() / 2;
    wire[2][mid] ^= 1;
    let err = err_of(dkg_output_key_generation_from_wire::<SchnorrPolyProof>(&PARAMS, &(), &states[0], &locals[0], &wire, &parties));
    assert!(matches!(err, DkgOutputError::InvalidWire));
}

#[test]
fn truncated_wire_message_is_rejected() {
    let (states, parties, broadcasts, locals) = one_round_setup();
    let mut wire: Vec<Vec<u8>> = broadcasts.iter().map(|b| b.to_wire()).collect();
    wire[1].truncate(8);
    let err = err_of(dkg_output_key_generation_from_wire::<SchnorrPolyProof>(&PARAMS, &(), &states[0], &locals[0], &wire, &parties));
    assert!(matches!(err, DkgOutputError::InvalidWire));
}

fn two_round_setup() -> (Vec<PartyState>, Parties, Vec<R1Msg>, Vec<Round1LocalState>) {
    let states: Vec<PartyState> = (1..=PARAMS.n).map(make_party_state).collect();
    let parties = collect_public_parties(&states);
    let mut msgs = Vec::new();
    let mut locals = Vec::new();
    for i in 1..=PARAMS.n {
        let (msg, local) = dkg_round1_initiate::<SchnorrDecomProof>(&PARAMS, &SchnorrDecomProofParams, &states[i - 1], Scalar::random(), &parties)
            .expect("the proof system makes a proof");
        msgs.push(msg);
        locals.push(local);
    }
    (states, parties, msgs, locals)
}

fn run_finalize(
    states: &[PartyState],
    parties: &Parties,
    msgs: &[R1Msg],
    locals: &[Round1LocalState],
    receiver: usize,
) -> Result<(Round2Broadcast, Round2LocalState), TwoRoundDkgError> {
    dkg_round2_finalize::<SchnorrDecomProof>(&PARAMS, &SchnorrDecomProofParams, &states[receiver - 1], &locals[receiver - 1], msgs, parties)
}

#[test]
fn two_round_tampered_message_names_its_dealer() {
    let (states, parties, mut msgs, locals) = two_round_setup();
    msgs[2].d_commitment = PedersenCommitment::new(Scalar::from_u64(7), Scalar::from_u64(9));
    match err_of(run_finalize(&states, &parties, &msgs, &locals, 1)) {
        TwoRoundDkgError::InvalidSignature { dealer_idx } => assert_eq!(dealer_idx, 3),
        _ => panic!("expected InvalidSignature"),
    }
}

#[test]
fn two_round_wrong_commitment_length_names_its_dealer() {
    let (states, parties, mut msgs, locals) = two_round_setup();
    let mut pedvss = msgs[1].pedvss.clone();
    pedvss.pop();
    msgs[1] = Round1Broadcast::new(2, pedvss, msgs[1].d_commitment, msgs[1].decom_proof.clone(), msgs[1].encrypted_shares.clone(), &states[1].sig_sk);
    match err_of(run_finalize(&states, &parties, &msgs, &locals, 1)) {
        TwoRoundDkgError::InvalidPedVssLength { dealer_idx } => assert_eq!(dealer_idx, 2),
        _ => panic!("expected InvalidPedVssLength"),
    }
}

#[test]
fn two_round_invalid_decom_proof_names_its_dealer() {
    let (states, parties, mut msgs, locals) = two_round_setup();
    let stolen = msgs[0].decom_proof.clone();
    msgs[3] = Round1Broadcast::new(4, msgs[3].pedvss.clone(), msgs[3].d_commitment, stolen, msgs[3].encrypted_shares.clone(), &states[3].sig_sk);
    match err_of(run_finalize(&states, &parties, &msgs, &locals, 1)) {
        TwoRoundDkgError::InvalidDecomProof { dealer_idx } => assert_eq!(dealer_idx, 4),
        _ => panic!("expected InvalidDecomProof"),
    }
}

#[test]
fn two_round_missing_ciphertext_names_both_parties() {
    let (states, parties, mut msgs, locals) = two_round_setup();
    let receiver = 1usize;
    let mut shares = msgs[2].encrypted_shares.clone();
    shares.shares.remove(&receiver);
    msgs[2] = Round1Broadcast::new(3, msgs[2].pedvss.clone(), msgs[2].d_commitment, msgs[2].decom_proof.clone(), shares, &states[2].sig_sk);
    match err_of(run_finalize(&states, &parties, &msgs, &locals, receiver)) {
        TwoRoundDkgError::MissingCiphertext { dealer_idx, receiver_idx } => {
            assert_eq!(dealer_idx, 3);
            assert_eq!(receiver_idx, receiver);
        },
        _ => panic!("expected MissingCiphertext"),
    }
}

#[test]
fn two_round_invalid_encryption_proof_names_its_dealer() {
    let (states, parties, mut msgs, locals) = two_round_setup();
    let mut shares = msgs[1].encrypted_shares.clone();
    shares.u = shares.u.add(&g());
    msgs[1] = Round1Broadcast::new(2, msgs[1].pedvss.clone(), msgs[1].d_commitment, msgs[1].decom_proof.clone(), shares, &states[1].sig_sk);
    match err_of(run_finalize(&states, &parties, &msgs, &locals, 1)) {
        TwoRoundDkgError::InvalidEncryptionProof { dealer_idx } => assert_eq!(dealer_idx, 2),
        _ => panic!("expected InvalidEncryptionProof"),
    }
}

#[test]
fn two_round_bad_parameters_are_rejected() {
    let (states, parties, msgs, locals) = two_round_setup();
    let bad = DkgParams { t: PARAMS.t, n: 0 };
    let err = err_of(dkg_round2_finalize::<SchnorrDecomProof>(&bad, &SchnorrDecomProofParams, &states[0], &locals[0], &msgs, &parties));
    assert!(matches!(err, TwoRoundDkgError::InvalidParameters));
}

fn two_round_through_finalize() -> (Vec<PartyState>, Parties, Vec<R1Msg>, Vec<Round2Broadcast>, Vec<Round2LocalState>) {
    let (states, parties, msgs, locals) = two_round_setup();
    let mut round2 = Vec::new();
    let mut locals2 = Vec::new();
    for i in 1..=PARAMS.n {
        let (msg, local) = match run_finalize(&states, &parties, &msgs, &locals, i) {
            Ok(x) => x,
            Err(_) => panic!("finalize"),
        };
        round2.push(msg);
        locals2.push(local);
    }
    (states, parties, msgs, round2, locals2)
}

fn run_two_round_output(
    states: &[PartyState],
    parties: &Parties,
    msgs: &[R1Msg],
    round2: &[Round2Broadcast],
    locals2: &[Round2LocalState],
    receiver: usize,
) -> Result<DkgOutput, TwoRoundDkgError> {
    dkg_output::<SchnorrDecomProof>(&PARAMS, &SchnorrDecomProofParams, &states[receiver - 1], &locals2[receiver - 1], msgs, round2, parties)
}

#[test]
fn two_round_missing_round2_message_names_its_dealer() {
    let (states, parties, msgs, mut round2, locals2) = two_round_through_finalize();
    round2.retain(|m| m.dealer_idx != 3);
    match err_of(run_two_round_output(&states, &parties, &msgs, &round2, &locals2, 1)) {
        TwoRoundDkgError::MissingRound2Message { dealer_idx } => assert_eq!(dealer_idx, 3),
        _ => panic!("expected MissingRound2Message"),
    }
}

#[test]
fn two_round_invalid_pk_proof_names_its_dealer() {
    let (states, parties, msgs, mut round2, locals2) = two_round_through_finalize();
    let stolen = round2[0].pk_proof;
    round2[2] = Round2Broadcast::new(3, round2[2].pk, stolen, round2[2].vk_i, round2[2].comeq_proof, &states[2].sig_sk);
    match err_of(run_two_round_output(&states, &parties, &msgs, &round2, &locals2, 1)) {
        TwoRoundDkgError::InvalidPkProof { dealer_idx } => assert_eq!(dealer_idx, 3),
        _ => panic!("expected InvalidPkProof"),
    }
}

#[test]
fn two_round_invalid_comeq_proof_names_its_dealer() {
    let (states, parties, msgs, mut round2, locals2) = two_round_through_finalize();
    let stolen = round2[0].comeq_proof;
    round2[3] = Round2Broadcast::new(4, round2[3].pk, round2[3].pk_proof, round2[3].vk_i, stolen, &states[3].sig_sk);
    match err_of(run_two_round_output(&states, &parties, &msgs, &round2, &locals2, 1)) {
        TwoRoundDkgError::InvalidComEqProof { dealer_idx } => assert_eq!(dealer_idx, 4),
        _ => panic!("expected InvalidComEqProof"),
    }
}

// A round-two broadcast altered after signing names its sender.
#[test]
fn two_round_tampered_round2_message_names_its_dealer() {
    let (states, parties, msgs, mut round2, locals2) = two_round_through_finalize();
    round2[1].vk_i = PedersenCommitment::new(Scalar::from_u64(1), Scalar::from_u64(2));
    match err_of(run_two_round_output(&states, &parties, &msgs, &round2, &locals2, 1)) {
        TwoRoundDkgError::InvalidSignature { dealer_idx } => assert_eq!(dealer_idx, 2),
        _ => panic!("expected InvalidSignature"),
    }
}
