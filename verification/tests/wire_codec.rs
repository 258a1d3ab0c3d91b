// Element and scalar encodings, and the framing of signed wire messages.

use janus::error::WireError;
use janus::group::{g, Point};
use janus::scalar::Scalar;
use janus::sig::SigningKey;
use janus::wire::{
    open_unverified, point_from_bytes, point_to_bytes, scalar_from_bytes, scalar_to_bytes, seal,
    signing_bytes_of_payload, split, to_bytes, verify_payload,
};

#[test]
fn point_roundtrip() {
    let p = Point::identity();
    assert!(point_from_bytes(&point_to_bytes(&p)).unwrap() == p);
}

#[test]
fn scalar_roundtrip() {
    let s = Scalar::from_u64(42);
    assert_eq!(scalar_from_bytes(&scalar_to_bytes(&s)).unwrap(), s);
}

#[test]
fn non_canonical_scalar_is_refused() {
    assert_eq!(scalar_from_bytes(&[0xffu8; 32]).unwrap_err(), WireError::NonCanonicalScalar);
}

#[test]
fn bytes_off_the_curve_are_refused() {
    let bad = [0xffu8; 32];
    assert!(matches!(point_from_bytes(&bad), Err(WireError::NotOnCurve)));
}

#[test]
fn split_undoes_seal() {
    let sk = SigningKey::generate();
    let payload = vec![1u8, 2, 3, 4, 5];
    let sig = sk.sign(&payload);
    let wire = seal(&payload, &sig);
    assert_eq!(wire.len(), 8 + payload.len() + 64);
    assert_eq!(wire[0], 5);
    let (p, s) = split(&wire).unwrap();
    assert_eq!(p, payload);
    assert_eq!(s, sig);
}

#[test]
fn split_refuses_short_and_padded_frames() {
    assert_eq!(split(&[1, 2, 3]).unwrap_err(), WireError::MalformedMessage);
    let sk = SigningKey::generate();
    let mut wire = seal(&[9u8, 9], &sk.sign(&[9u8, 9]));
    wire.push(0);
    assert_eq!(split(&wire).unwrap_err(), WireError::MalformedMessage);
}

#[test]
fn verify_payload_checks_domain_and_bytes() {
    let sk = SigningKey::generate();
    let pk = sk.verifying_key();
    let payload = vec![7u8; 10];
    let sig = sk.sign(&signing_bytes_of_payload(b"domain", &payload));
    assert!(verify_payload(b"domain", &payload, &sig, &pk).is_ok());
    assert_eq!(verify_payload(b"other", &payload, &sig, &pk).unwrap_err(), WireError::BadSignature);
}

#[test]
fn open_unverified_decodes_the_payload() {
    let sk = SigningKey::generate();
    let p = g().mul(&Scalar::from_u64(9));
    let payload = to_bytes(&p);
    let wire = seal(&payload, &sk.sign(&payload));
    let (q, bytes, _) = open_unverified::<Point>(&wire).unwrap();
    assert!(q == p);
    assert_eq!(bytes, payload);
}

#[test]
fn vector_of_points_reads_back_its_bytes() {
    let pts: Vec<Point> = (1..=4u64).map(|k| g().mul(&Scalar::from_u64(k))).collect();
    let bytes = to_bytes(&pts);
    let back: Vec<Point> = janus::wire::from_bytes(&bytes).expect("a vector of points reads back");
    assert_eq!(to_bytes(&back), bytes);
    assert!(back.len() == 4 && back[3] == pts[3]);
}

#[test]
fn truncated_vector_is_refused() {
    let pts: Vec<Point> = (1..=3u64).map(|k| g().mul(&Scalar::from_u64(k))).collect();
    let bytes = to_bytes(&pts);
    assert!(janus::wire::from_bytes::<Vec<Point>>(&bytes[..bytes.len() - 1]).is_none());
}
