//! The parties of a run: each holds an encryption key pair and a signing key
//! pair, and every party knows the public halves of all.

use crate::arith::modl;
use crate::group::Point;
use crate::scalar::Scalar;
use crate::sig::{ed25519_public_key, SigningKey, VerifyingKey};
use vstd::prelude::*;

verus! {

/// One party's own keys.
#[derive(Clone)]
pub struct PartyState {
    pub dealer_idx: usize,
    pub enc_sk: Scalar,
    pub enc_pk: Point,
    pub sig_sk: SigningKey,
    pub sig_pk: VerifyingKey,
}

/// What every party knows of one party.
#[derive(Clone, Copy)]
pub struct PublicParty {
    pub dealer_idx: usize,
    pub enc_pk: Point,
    pub sig_pk: VerifyingKey,
}

/// The public keys of all parties; party `i` sits at position `i - 1`.
#[derive(Clone)]
pub struct Parties {
    pub parties: Vec<PublicParty>,
}

/// The keys of a party state belong together.
pub open spec fn party_keys_match(s: PartyState) -> bool {
    &&& s.enc_pk@ == modl(s.enc_sk@)
    &&& s.sig_pk.bytes@ == ed25519_public_key(s.sig_sk.bytes@)
}

impl Parties {
    /// The public keys of party `dealer_idx`.
    pub fn get(&self, dealer_idx: usize) -> (r: &PublicParty)
        requires
            1 <= dealer_idx <= self.parties@.len(),
        ensures
            *r == self.parties@[dealer_idx - 1],
    {
        &self.parties[dealer_idx - 1]
    }

    /// The encryption key of party `dealer_idx`.
    pub fn enc_pk(&self, dealer_idx: usize) -> (r: &Point)
        requires
            1 <= dealer_idx <= self.parties@.len(),
        ensures
            *r == self.parties@[dealer_idx - 1].enc_pk,
    {
        &self.get(dealer_idx).enc_pk
    }

    /// The verifying key of party `dealer_idx`.
    pub fn sig_pk(&self, dealer_idx: usize) -> (r: &VerifyingKey)
        requires
            1 <= dealer_idx <= self.parties@.len(),
        ensures
            *r == self.parties@[dealer_idx - 1].sig_pk,
    {
        &self.get(dealer_idx).sig_pk
    }

    /// The number of parties.
    pub fn len(&self) -> (r: usize)
        ensures
            r == self.parties@.len(),
    {
        self.parties.len()
    }
}

/// Fresh keys for party `dealer_idx`.
pub fn make_party_state(dealer_idx: usize) -> (r: PartyState)
    ensures
        r.dealer_idx == dealer_idx,
        party_keys_match(r),
{
    let enc_sk = Scalar::random();
    let enc_pk = Point::basepoint_mul(&enc_sk);
    let sig_sk = SigningKey::generate();
    let sig_pk = sig_sk.verifying_key();
    PartyState { dealer_idx, enc_sk, enc_pk, sig_sk, sig_pk }
}

/// The public halves of the parties' keys, in the given order.
pub fn collect_public_parties(parties: &[PartyState]) -> (r: Parties)
    ensures
        r.parties@.len() == parties@.len(),
        forall|i: int|
            0 <= i < parties@.len() ==> {
                &&& (#[trigger] r.parties@[i]).dealer_idx == parties@[i].dealer_idx
                &&& r.parties@[i].enc_pk == parties@[i].enc_pk
                &&& r.parties@[i].sig_pk == parties@[i].sig_pk
            },
{
    let mut out: Vec<PublicParty> = Vec::new();
    let mut i: usize = 0;
    while i < parties.len()
        invariant
            i <= parties@.len(),
            out@.len() == i,
            forall|q: int|
                0 <= q < i ==> {
                    &&& (#[trigger] out@[q]).dealer_idx == parties@[q].dealer_idx
                    &&& out@[q].enc_pk == parties@[q].enc_pk
                    &&& out@[q].sig_pk == parties@[q].sig_pk
                },
        decreases parties@.len() - i,
    {
        let p = &parties[i];
        out.push(PublicParty { dealer_idx: p.dealer_idx, enc_pk: p.enc_pk, sig_pk: p.sig_pk });
        i = i + 1;
    }
    Parties { parties: out }
}

} // verus!
