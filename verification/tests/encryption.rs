// Hashed ElGamal encryption of share pairs, batch decryption and the
// decryption proof.

use janus::encryption::elgamal::{
    decrypt_my_shares, decrypt_two_scalars, encrypt_batch, encrypt_two_scalars, keygen, verify_dlog,
};
use janus::encryption::proofs::{prove_decryption, verify_decryption};
use janus::group::g;
use janus::scalar::Scalar;

fn sc(x: u64) -> Scalar {
    Scalar::from_u64(x)
}

#[test]
fn test_hashed_elgamal_two_scalars() {
    let (sk, pk) = keygen();
    let m1 = sc(123);
    let m2 = sc(456);
    let ct = encrypt_two_scalars(&pk, m1, m2);
    assert!(verify_dlog(&ct.u, &ct.pok));
    let (d1, d2) = decrypt_two_scalars(&sk, &ct);
    assert_eq!(m1, d1);
    assert_eq!(m2, d2);
}

#[test]
fn test_encrypt_batch_roundtrip() {
    let (sk1, pk1) = keygen();
    let (sk2, pk2) = keygen();
    let receivers = vec![(1usize, pk1), (2usize, pk2)];
    let m1s = vec![sc(10), sc(20)];
    let m2s = vec![sc(11), sc(21)];
    let batch = encrypt_batch(&receivers, &m1s, &m2s);
    assert!(verify_dlog(&batch.u, &batch.pok));
    let dec1 = decrypt_my_shares(&sk1, &[&batch], 1).unwrap();
    let dec2 = decrypt_my_shares(&sk2, &[&batch], 2).unwrap();
    assert_eq!(dec1[0], Some((m1s[0], m2s[0])));
    assert_eq!(dec2[0], Some((m1s[1], m2s[1])));
}

#[test]
fn test_decrypt_my_shares_multi_batch() {
    let (sk, pk) = keygen();
    let (_, pk2) = keygen();
    let b1 = encrypt_batch(&[(3usize, pk)], &[sc(1)], &[sc(2)]);
    let b2 = encrypt_batch(&[(3usize, pk), (7usize, pk2)], &[sc(3), sc(99)], &[sc(4), sc(99)]);
    let result = decrypt_my_shares(&sk, &[&b1, &b2], 3).unwrap();
    assert_eq!(result[0], Some((sc(1), sc(2))));
    assert_eq!(result[1], Some((sc(3), sc(4))));
}

#[test]
fn test_decrypt_my_shares_missing_idx() {
    let (sk, pk) = keygen();
    let batch = encrypt_batch(&[(5usize, pk)], &[sc(7)], &[sc(8)]);
    let result = decrypt_my_shares(&sk, &[&batch], 99).unwrap();
    assert_eq!(result[0], None);
}

#[test]
fn test_decrypt_my_shares_bad_pok() {
    let (sk, pk) = keygen();
    let mut b0 = encrypt_batch(&[(1usize, pk)], &[sc(1)], &[sc(2)]);
    let b1 = encrypt_batch(&[(1usize, pk)], &[sc(3)], &[sc(4)]);
    let b2 = encrypt_batch(&[(1usize, pk)], &[sc(5)], &[sc(6)]);
    b0.pok.z = b0.pok.z.add(&Scalar::one());
    let err = decrypt_my_shares(&sk, &[&b0, &b1, &b2], 1).unwrap_err();
    assert_eq!(err, vec![0]);
}

#[test]
fn test_decryption_proof() {
    let sk = Scalar::random();
    let pk = g().mul(&sk);
    let alpha = Scalar::random();
    let u = g().mul(&alpha);
    let (shared, proof) = prove_decryption(&sk, &pk, &u);
    assert!(verify_decryption(&pk, &u, &shared, &proof));
}

// Decryption undoes encryption for any pair of scalars.
#[test]
fn decrypt_undoes_encrypt_for_random_pairs() {
    for _ in 0..5 {
        let (sk, pk) = keygen();
        let (m1, m2) = (Scalar::random(), Scalar::random());
        let (d1, d2) = decrypt_two_scalars(&sk, &encrypt_two_scalars(&pk, m1, m2));
        assert_eq!((d1, d2), (m1, m2));
    }
}

// A decryption proof for another party's key is refused.
#[test]
fn decryption_proof_for_wrong_key_is_refused() {
    let sk = Scalar::random();
    let pk = g().mul(&sk);
    let other_pk = g().mul(&Scalar::random());
    let u = g().mul(&Scalar::random());
    let (shared, proof) = prove_decryption(&sk, &pk, &u);
    assert!(!verify_decryption(&other_pk, &u, &shared, &proof));
}

// A receiver with the wrong key opens a different pair.
#[test]
fn decrypting_with_the_wrong_key_gives_another_pair() {
    let (_, pk) = keygen();
    let (other_sk, _) = keygen();
    let ct = encrypt_two_scalars(&pk, sc(5), sc(6));
    let (d1, _) = decrypt_two_scalars(&other_sk, &ct);
    assert_ne!(d1, sc(5));
}
