//! Hashed ElGamal encryption of share pairs and proofs of correct decryption.

pub mod elgamal;
pub mod proofs;

pub use elgamal::{
    decrypt_my_shares, decrypt_two_scalars, encrypt_batch, encrypt_two_scalars, keygen,
    open_share_with_shared, verify_dlog, BatchEncryptedShares, EncryptedShare,
    HashedElgamalCiphertext2, SchnorrDLogProof,
};
