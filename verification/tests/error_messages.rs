use janus::{DkgOutputError, TwoRoundDkgError, WireError};

#[test]
fn wire_error_messages() {
    assert_eq!(WireError::NotOnCurve.to_string(), "not a canonical Ristretto point");
    assert_eq!(WireError::BadSignature.to_string(), "wire message signature does not verify");
}

#[test]
fn one_round_error_messages_name_the_dealer() {
    assert_eq!(DkgOutputError::InvalidParameters.to_string(), "invalid DKG parameters");
    assert_eq!(DkgOutputError::InvalidSignature { dealer_idx: 3 }.to_string(), "signature of dealer 3 is invalid");
    assert_eq!(
        DkgOutputError::MissingCiphertext { dealer_idx: 12, receiver_idx: 105 }.to_string(),
        "dealer 12 sent no ciphertext for party 105"
    );
    assert_eq!(
        DkgOutputError::InvalidBatchProof { dealer_idx: 0 }.to_string(),
        "well-formedness proof of dealer 0 is invalid"
    );
}

#[test]
fn two_round_error_messages_name_the_dealer() {
    assert_eq!(TwoRoundDkgError::MissingRound2Message { dealer_idx: 7 }.to_string(), "dealer 7 sent no round 2 message");
    assert_eq!(
        TwoRoundDkgError::InvalidPedVssLength { dealer_idx: 40 }.to_string(),
        "dealer 40 sent a VSS vector of the wrong length"
    );
    assert_eq!(
        TwoRoundDkgError::InvalidComEqProof { dealer_idx: 1000 }.to_string(),
        "commitment equality proof of dealer 1000 is invalid"
    );
}
