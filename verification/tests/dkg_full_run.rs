// Full runs of both protocols among honest parties.

use janus::one_round::{dkg_initiate, dkg_output_key_generation, DkgInitBroadcast, DkgInitLocalState};
use janus::one_round_proofs::{FischlinPolyProof, FischlinProofParams, PolyProofScheme, SchnorrPolyProof};
use janus::party::{collect_public_parties, make_party_state, Parties, PartyState};
use janus::runs::{check_dkg_outputs, run_dkg_once_for_test, run_two_round_dkg_once_for_test, OutputCheckError, RunError};
use janus::group::Point;
use janus::scalar::Scalar;
use janus::two_round::{
    dkg_output as dkg_two_round_output, dkg_round1_initiate, dkg_round2_finalize, Round1Broadcast,
    Round1LocalState, Round2Broadcast, Round2LocalState,
};
use janus::two_round_proofs::{
    DecomProofScheme, DecomStatement, DecomWitness, FischlinDecomProofParams, FischlinDecomScheme,
    SchnorrDecomProof, SchnorrDecomProofParams,
};
use janus::wire::WireCodec;
use janus::{DkgOutput, DkgParams};

// Small parameters: fast for tests, still exercise the full protocol.
const PARAMS_SMALL: DkgParams = DkgParams { t: 2, n: 5 };
const PARAMS_MID: DkgParams = DkgParams { t: 4, n: 9 };

fn setup(n: usize) -> (Vec<PartyState>, Parties, Vec<Scalar>) {
    let party_states: Vec<PartyState> = (1..=n).map(make_party_state).collect();
    let parties = collect_public_parties(&party_states);
    let secrets: Vec<Scalar> = (0..n).map(|_| Scalar::random()).collect();
    (party_states, parties, secrets)
}

fn check_outputs(outputs: &[DkgOutput]) {
    assert!(!outputs.is_empty(), "no outputs");
    let n = outputs.len();
    let mut seen = vec![false; n];
    for o in outputs {
        assert!(o.idx >= 1 && o.idx <= n, "idx out of range: {}", o.idx);
        assert!(!seen[o.idx - 1], "duplicate idx {}", o.idx);
        seen[o.idx - 1] = true;
    }
    let pk = outputs[0].public_key;
    for o in outputs.iter().skip(1) {
        assert!(o.public_key == pk, "public key mismatch at party {}", o.idx);
    }
    let vks = &outputs[0].partial_verification_keys;
    assert_eq!(vks.len(), n);
    for o in outputs.iter().skip(1) {
        assert!(o.partial_verification_keys == *vks, "vk vector mismatch at party {}", o.idx);
    }
    for o in outputs {
        assert!(
            vks[o.idx - 1].matches_opening(o.secret_share, o.blinding_share),
            "share does not open vk for party {}",
            o.idx
        );
    }
    assert!(check_dkg_outputs(outputs).is_ok());
}

// With every dealer honest, the joint public key is `g` to the sum of the
// contributed secrets.
fn check_public_key_is_sum(outputs: &[DkgOutput], secrets: &[Scalar]) {
    let mut sum = Scalar::zero();
    for s in secrets {
        sum = sum.add(s);
    }
    assert!(outputs[0].public_key == Point::basepoint_mul(&sum), "public key is not g^(sum of secrets)");
}

fn run_one_round<S: PolyProofScheme>(params: &DkgParams, proof_params: &S::Params) -> Vec<DkgOutput>
where
    S::Proof: WireCodec + Clone,
{
    let n = params.n;
    let (party_states, parties, secrets) = setup(n);
    let init_results: Vec<_> = (1..=n)
        .map(|i| {
            dkg_initiate::<S>(params, proof_params, &party_states[i - 1], secrets[i - 1], &parties)
                .expect("the proof system makes a proof")
        })
        .collect();
    let broadcasts: Vec<DkgInitBroadcast<S::Proof>> = init_results.iter().map(|r| r.broadcast.clone()).collect();
    let locals: Vec<DkgInitLocalState> = init_results.into_iter().map(|r| r.local).collect();
    let outputs: Vec<DkgOutput> = (1..=n)
        .map(|i| {
            match dkg_output_key_generation::<S>(params, proof_params, &party_states[i - 1], &locals[i - 1], &broadcasts, &parties) {
                Ok(out) => out,
                Err(_) => panic!("one-round output failed for party {i}"),
            }
        })
        .collect();
    check_outputs(&outputs);
    check_public_key_is_sum(&outputs, &secrets);
    outputs
}

fn run_two_round<S>(params: &DkgParams, decom_params: &S::Params) -> Vec<DkgOutput>
where
    S: DecomProofScheme<Statement = DecomStatement, Witness = DecomWitness>,
    S::Proof: WireCodec + Clone,
{
    let n = params.n;
    let (party_states, parties, secrets) = setup(n);
    let round1_results: Vec<(Round1Broadcast<S::Proof>, Round1LocalState)> = (1..=n)
        .map(|i| {
            dkg_round1_initiate::<S>(params, decom_params, &party_states[i - 1], secrets[i - 1], &parties)
                .expect("the proof system makes a proof")
        })
        .collect();
    let round1_broadcasts: Vec<Round1Broadcast<S::Proof>> = round1_results.iter().map(|r| r.0.clone()).collect();
    let round1_locals: Vec<Round1LocalState> = round1_results.into_iter().map(|r| r.1).collect();
    let round2_results: Vec<(Round2Broadcast, Round2LocalState)> = (1..=n)
        .map(|i| {
            match dkg_round2_finalize::<S>(params, decom_params, &party_states[i - 1], &round1_locals[i - 1], &round1_broadcasts, &parties) {
                Ok(r) => r,
                Err(_) => panic!("round2 failed for party {i}"),
            }
        })
        .collect();
    let round2_broadcasts: Vec<Round2Broadcast> = round2_results.iter().map(|r| r.0).collect();
    let round2_locals: Vec<Round2LocalState> = round2_results.into_iter().map(|r| r.1).collect();
    let outputs: Vec<DkgOutput> = (1..=n)
        .map(|i| {
            match dkg_two_round_output::<S>(
                params,
                decom_params,
                &party_states[i - 1],
                &round2_locals[i - 1],
                &round1_broadcasts,
                &round2_broadcasts,
                &parties,
            ) {
                Ok(out) => out,
                Err(_) => panic!("two-round output failed for party {i}"),
            }
        })
        .collect();
    check_outputs(&outputs);
    check_public_key_is_sum(&outputs, &secrets);
    outputs
}

#[test]
fn one_round_schnorr_small() {
    run_one_round::<SchnorrPolyProof>(&PARAMS_SMALL, &());
}

#[test]
fn one_round_schnorr_mid() {
    run_one_round::<SchnorrPolyProof>(&PARAMS_MID, &());
}

#[test]
fn one_round_fischlin_small() {
    let proof_params = FischlinProofParams { rho: 4, b: 4, t_bits: 9 };
    run_one_round::<FischlinPolyProof>(&PARAMS_SMALL, &proof_params);
}

#[test]
fn two_round_schnorr_small() {
    run_two_round::<SchnorrDecomProof>(&PARAMS_SMALL, &SchnorrDecomProofParams);
}

#[test]
fn two_round_schnorr_mid() {
    run_two_round::<SchnorrDecomProof>(&PARAMS_MID, &SchnorrDecomProofParams);
}

#[test]
fn two_round_fischlin_small() {
    let decom_params = FischlinDecomProofParams { rho: 4, b: 4, t_bits: 9 };
    run_two_round::<FischlinDecomScheme>(&PARAMS_SMALL, &decom_params);
}

// The whole-run helpers agree with the step-by-step runs.
#[test]
fn whole_one_round_run_succeeds() {
    match run_dkg_once_for_test::<SchnorrPolyProof>(&PARAMS_SMALL, &()) {
        Ok((outs, bs)) => {
            assert_eq!(outs.len(), 5);
            assert_eq!(bs.len(), 5);
        },
        Err(_) => panic!("run failed"),
    }
}

#[test]
fn whole_two_round_run_succeeds() {
    match run_two_round_dkg_once_for_test::<SchnorrDecomProof>(&PARAMS_SMALL, &SchnorrDecomProofParams) {
        Ok((outs, r1, r2)) => {
            assert_eq!(outs.len(), 5);
            assert_eq!(r1.len(), 5);
            assert_eq!(r2.len(), 5);
        },
        Err(_) => panic!("run failed"),
    }
}

#[test]
fn whole_run_refuses_bad_thresholds() {
    assert!(matches!(
        run_dkg_once_for_test::<SchnorrPolyProof>(&DkgParams { t: 0, n: 0 }, &()),
        Err(RunError::NoParties)
    ));
    assert!(matches!(
        run_two_round_dkg_once_for_test::<SchnorrDecomProof>(&DkgParams { t: 3, n: 3 }, &SchnorrDecomProofParams),
        Err(RunError::ThresholdTooLarge)
    ));
}

#[test]
fn output_check_names_the_inconsistency() {
    let outputs = run_one_round::<SchnorrPolyProof>(&PARAMS_SMALL, &());
    assert_eq!(check_dkg_outputs(&[]).unwrap_err(), OutputCheckError::Empty);
    let mut dup = outputs.clone();
    dup[1].idx = dup[0].idx;
    assert_eq!(check_dkg_outputs(&dup).unwrap_err(), OutputCheckError::DuplicateIdx { idx: dup[0].idx });
    let mut bad_share = outputs.clone();
    bad_share[2].secret_share = bad_share[2].secret_share.add(&Scalar::one());
    assert_eq!(
        check_dkg_outputs(&bad_share).unwrap_err(),
        OutputCheckError::OpeningMismatch { idx: bad_share[2].idx }
    );
    let mut bad_idx = outputs;
    bad_idx[0].idx = 77;
    assert_eq!(check_dkg_outputs(&bad_idx).unwrap_err(), OutputCheckError::InvalidIdx { idx: 77 });
}
