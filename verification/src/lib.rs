//! Janus: adaptive distributed key generation for discrete-log cryptosystems.

use crate::group::Point;
use crate::pedersen::PedersenCommitment;
use crate::scalar::Scalar;
use vstd::prelude::*;

pub use crate::error::{DkgOutputError, TwoRoundDkgError, WireError};

pub mod abort;
pub mod arith;
pub mod bytes;
pub mod codec;
pub mod scalar;
pub mod group;
pub mod pedersen;
pub mod poly;
pub mod transcript;
pub mod encodings;
pub mod encryption;
pub mod error;
pub mod party;
pub mod sig;
pub mod wire;
pub mod one_round;
pub mod one_round_proofs;
pub mod two_round_proofs;
pub mod two_round;
pub mod compact_encoding;
pub mod runs;

verus! {

/// What a party holds after a run: its index, its share of the secret and of
/// the blinding, the public key and everyone's partial verification key.
#[derive(Clone)]
pub struct DkgOutput {
    pub idx: usize,
    pub secret_share: Scalar,
    pub blinding_share: Scalar,
    pub public_key: Point,
    pub partial_verification_keys: Vec<PedersenCommitment>,
}

/// The threshold `t` and the number of parties `n`.
#[derive(Clone, Copy, Debug)]
pub struct DkgParams {
    pub t: usize,
    pub n: usize,
}

} // verus!
