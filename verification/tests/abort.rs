// Complaints against a dealer that sent a share which does not open its
// commitment, and the verdicts every party derives from them.

use janus::abort::{AbortReport, AbortVerdict};
use janus::encryption::proofs::prove_decryption;
use janus::error::{DkgOutputError, TwoRoundDkgError};
use janus::one_round::{build_abort_report, dkg_initiate, dkg_output_key_generation, verify_abort_report, DkgInitBroadcast, DkgInitLocalState};
use janus::one_round_proofs::{PolyProofScheme, SchnorrPolyProof};
use janus::party::{collect_public_parties, make_party_state, Parties, PartyState};
use janus::scalar::Scalar;
use janus::sig::Signature;
use janus::two_round::{
    build_abort_report as build_two_round_report, dkg_round1_initiate, dkg_round2_finalize,
    verify_abort_report as verify_two_round_report, Round1Broadcast, Round1LocalState,
};
use janus::two_round_proofs::{DecomProofScheme, SchnorrDecomProof, SchnorrDecomProofParams};
use janus::DkgParams;

const PARAMS: DkgParams = DkgParams { t: 2, n: 5 };

fn setup(n: usize) -> (Vec<PartyState>, Parties) {
    let states: Vec<PartyState> = (1..=n).map(make_party_state).collect();
    let parties = collect_public_parties(&states);
    (states, parties)
}

fn one_round_broadcasts(
    states: &[PartyState],
    parties: &Parties,
) -> (Vec<DkgInitBroadcast<<SchnorrPolyProof as PolyProofScheme>::Proof>>, Vec<DkgInitLocalState>) {
    let mut broadcasts = Vec::new();
    let mut locals = Vec::new();
    for i in 1..=PARAMS.n {
        let res = dkg_initiate::<SchnorrPolyProof>(&PARAMS, &(), &states[i - 1], Scalar::from_u64(i as u64), parties)
            .expect("the proof system makes a proof");
        broadcasts.push(res.broadcast);
        locals.push(res.local);
    }
    (broadcasts, locals)
}

#[test]
fn one_round_detects_and_convicts_malicious_dealer() {
    let (states, parties) = setup(PARAMS.n);
    let (mut broadcasts, locals) = one_round_broadcasts(&states, &parties);
    let dealer = 3usize;
    let reporter = 1usize;

    // The dealer sends the reporter a share that no longer opens its
    // commitment, then re-signs so the tampered broadcast is authentic.
    let dealer_sk = states[dealer - 1].sig_sk;
    let share = broadcasts[dealer - 1].encrypted_shares.shares.get_mut(&reporter).unwrap();
    share.v1 = share.v1.add(&Scalar::one());
    broadcasts[dealer - 1].sign(&dealer_sk);

    let err = match dkg_output_key_generation::<SchnorrPolyProof>(&PARAMS, &(), &states[reporter - 1], &locals[reporter - 1], &broadcasts, &parties) {
        Ok(_) => panic!("reporter must detect the bad share"),
        Err(e) => e,
    };
    match &err {
        DkgOutputError::InvalidDecryptionOpening { dealer_idx, receiver_idx, .. } => {
            assert_eq!(*dealer_idx, dealer);
            assert_eq!(*receiver_idx, reporter);
        },
        _ => panic!("expected an opening failure"),
    }
    let report = build_abort_report(&states[reporter - 1], &err).expect("a complaint is defined");
    let verdict = verify_abort_report(&parties, &broadcasts[dealer - 1], &report);
    assert_eq!(verdict, AbortVerdict::DealerGuilty { dealer_idx: dealer, reporter_idx: reporter });
}

#[test]
fn one_round_rejects_false_complaint() {
    let (states, parties) = setup(PARAMS.n);
    let (broadcasts, _locals) = one_round_broadcasts(&states, &parties);
    let dealer = 3usize;
    let reporter = 1usize;
    let accused = &broadcasts[dealer - 1];
    let rep = &states[reporter - 1];

    // The reporter proves its Diffie-Hellman value honestly but complains
    // about a share that in fact opens.
    let (shared, proof) = prove_decryption(&rep.enc_sk, &rep.enc_pk, &accused.encrypted_shares.u);
    let report = AbortReport::new(reporter, dealer, Scalar::zero(), Scalar::zero(), shared, proof, &rep.sig_sk);
    let verdict = verify_abort_report(&parties, accused, &report);
    assert_eq!(verdict, AbortVerdict::ReporterGuilty { reporter_idx: reporter });
}

#[test]
fn one_round_rejects_report_with_bad_proof() {
    let (states, parties) = setup(PARAMS.n);
    let (broadcasts, _locals) = one_round_broadcasts(&states, &parties);
    let dealer = 3usize;
    let reporter = 1usize;
    let accused = &broadcasts[dealer - 1];
    let rep = &states[reporter - 1];

    // A wrong decryption proof, signed so authentication still passes, points
    // the blame back at the reporter.
    let (shared, mut proof) = prove_decryption(&rep.enc_sk, &rep.enc_pk, &accused.encrypted_shares.u);
    proof.z = proof.z.add(&Scalar::one());
    let report = AbortReport::new(reporter, dealer, Scalar::zero(), Scalar::zero(), shared, proof, &rep.sig_sk);
    let verdict = verify_abort_report(&parties, accused, &report);
    assert_eq!(verdict, AbortVerdict::ReporterGuilty { reporter_idx: reporter });
}

#[test]
fn one_round_discards_unauthenticated_report() {
    let (states, parties) = setup(PARAMS.n);
    let (broadcasts, _locals) = one_round_broadcasts(&states, &parties);
    let dealer = 3usize;
    let reporter = 1usize;
    let accused = &broadcasts[dealer - 1];
    let rep = &states[reporter - 1];
    let (shared, proof) = prove_decryption(&rep.enc_sk, &rep.enc_pk, &accused.encrypted_shares.u);
    let mut report = AbortReport::new(reporter, dealer, Scalar::zero(), Scalar::zero(), shared, proof, &rep.sig_sk);
    report.signature = Signature { bytes: [0u8; 64] };
    let verdict = verify_abort_report(&parties, accused, &report);
    assert_eq!(verdict, AbortVerdict::InvalidReport);
}

fn two_round_broadcasts(
    states: &[PartyState],
    parties: &Parties,
) -> (Vec<Round1Broadcast<<SchnorrDecomProof as DecomProofScheme>::Proof>>, Vec<Round1LocalState>) {
    let mut broadcasts = Vec::new();
    let mut locals = Vec::new();
    for i in 1..=PARAMS.n {
        let (b, l) = dkg_round1_initiate::<SchnorrDecomProof>(
            &PARAMS,
            &SchnorrDecomProofParams,
            &states[i - 1],
            Scalar::from_u64(i as u64),
            parties,
        )
        .expect("the proof system makes a proof");
        broadcasts.push(b);
        locals.push(l);
    }
    (broadcasts, locals)
}

#[test]
fn two_round_detects_and_convicts_malicious_dealer() {
    let (states, parties) = setup(PARAMS.n);
    let (mut broadcasts, locals) = two_round_broadcasts(&states, &parties);
    let dealer = 3usize;
    let reporter = 1usize;
    let dealer_sk = states[dealer - 1].sig_sk;
    let share = broadcasts[dealer - 1].encrypted_shares.shares.get_mut(&reporter).unwrap();
    share.v1 = share.v1.add(&Scalar::one());
    broadcasts[dealer - 1].sign(&dealer_sk);

    let err = match dkg_round2_finalize::<SchnorrDecomProof>(
        &PARAMS,
        &SchnorrDecomProofParams,
        &states[reporter - 1],
        &locals[reporter - 1],
        &broadcasts,
        &parties,
    ) {
        Ok(_) => panic!("reporter must detect the bad share"),
        Err(e) => e,
    };
    let report = build_two_round_report(&states[reporter - 1], &err).expect("a complaint is defined");
    let verdict = verify_two_round_report(&parties, &broadcasts[dealer - 1], &report);
    assert_eq!(verdict, AbortVerdict::DealerGuilty { dealer_idx: dealer, reporter_idx: reporter });
}

// A complaint is defined only for a share that does not open.
#[test]
fn no_complaint_for_other_errors() {
    let (states, _) = setup(2);
    assert!(build_abort_report(&states[0], &DkgOutputError::InvalidParameters).is_none());
    assert!(build_two_round_report(&states[0], &TwoRoundDkgError::InvalidSignature { dealer_idx: 2 }).is_none());
}

// A complaint against a dealer other than the one it names, or by the
// dealer against itself, is refused before anything else is checked.
#[test]
fn misaddressed_complaints_are_invalid() {
    let (states, parties) = setup(PARAMS.n);
    let (broadcasts, _locals) = one_round_broadcasts(&states, &parties);
    let rep = &states[0];
    let (shared, proof) = prove_decryption(&rep.enc_sk, &rep.enc_pk, &broadcasts[2].encrypted_shares.u);
    let report = AbortReport::new(1, 3, Scalar::zero(), Scalar::zero(), shared, proof, &rep.sig_sk);
    assert_eq!(verify_abort_report(&parties, &broadcasts[1], &report), AbortVerdict::InvalidReport);
    let self_report = AbortReport::new(3, 3, Scalar::zero(), Scalar::zero(), shared, proof, &states[2].sig_sk);
    assert_eq!(verify_abort_report(&parties, &broadcasts[2], &self_report), AbortVerdict::InvalidReport);
}
