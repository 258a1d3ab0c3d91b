// Refresh is the same protocol with zero as the shared value; these pin what
// that changes.

use janus::group::Point;
use janus::one_round::{dkg_initiate, dkg_output_key_generation};
use janus::one_round_proofs::SchnorrPolyProof;
use janus::party::{collect_public_parties, make_party_state, PartyState};
use janus::pedersen::PedersenCommitment;
use janus::scalar::Scalar;
use janus::{DkgOutput, DkgParams};

const PARAMS: DkgParams = DkgParams { t: 3, n: 7 };

// Runs the one-round protocol with the given contribution per party and
// returns what every party ends up with.
fn run(states: &[PartyState], shares: &[Scalar]) -> Vec<DkgOutput> {
    let parties = collect_public_parties(states);
    let mut broadcasts = Vec::new();
    let mut locals = Vec::new();
    for i in 1..=PARAMS.n {
        let res = dkg_initiate::<SchnorrPolyProof>(&PARAMS, &(), &states[i - 1], shares[i - 1], &parties)
            .expect("the proof system makes a proof");
        broadcasts.push(res.broadcast);
        locals.push(res.local);
    }
    (1..=PARAMS.n)
        .map(|i| {
            match dkg_output_key_generation::<SchnorrPolyProof>(&PARAMS, &(), &states[i - 1], &locals[i - 1], &broadcasts, &parties) {
                Ok(out) => out,
                Err(_) => panic!("output"),
            }
        })
        .collect()
}

#[test]
fn refresh_run_shares_zero() {
    let states: Vec<PartyState> = (1..=PARAMS.n).map(make_party_state).collect();
    let refreshed = run(&states, &vec![Scalar::zero(); PARAMS.n]);
    // Contributing zero everywhere shares zero, so the joint key of a refresh
    // run carries no key material of its own.
    assert!(refreshed[0].public_key == Point::identity(), "a refresh must share zero, not a new secret");
    for out in &refreshed {
        assert!(out.public_key == refreshed[0].public_key);
    }
}

#[test]
fn refresh_rerandomizes_shares_without_moving_the_key() {
    let states: Vec<PartyState> = (1..=PARAMS.n).map(make_party_state).collect();
    let secrets: Vec<Scalar> = (0..PARAMS.n).map(|_| Scalar::random()).collect();
    let original = run(&states, &secrets);
    let refresh = run(&states, &vec![Scalar::zero(); PARAMS.n]);
    for i in 0..PARAMS.n {
        assert_ne!(refresh[i].secret_share, Scalar::zero(), "party {} kept a zero share, nothing was re-randomized", i + 1);
        // A party updates by adding what the refresh handed it.
        let new_share = original[i].secret_share.add(&refresh[i].secret_share);
        let new_blinding = original[i].blinding_share.add(&refresh[i].blinding_share);
        assert_ne!(new_share, original[i].secret_share, "party {} ended up with its old share", i + 1);
        // The verification key moves the same way, and the updated share opens it.
        let old_vk = *original[i].partial_verification_keys[i].point();
        let delta_vk = *refresh[i].partial_verification_keys[i].point();
        let new_vk = PedersenCommitment::from_point(old_vk.add(&delta_vk));
        assert!(new_vk.verify_opening(new_share, new_blinding), "updated share of party {} does not open its updated key", i + 1);
    }
    // The joint public key is what a refresh must leave alone.
    let combined = original[0].public_key.add(&refresh[0].public_key);
    assert!(combined == original[0].public_key, "a refresh must not move the public key");
}
