# janus

Distributed key generation over Ristretto255 with Pedersen verifiable secret
sharing, in two protocols (one round, and two rounds with decommitment
proofs), written in Verus: the library under `src/` is verified, `app/` holds
the command-line program around it.

- `src/scalar.rs`, `src/group.rs`, `src/pedersen.rs`, `src/poly.rs`: scalars,
  group elements, Pedersen commitments and polynomials, each with a model of
  integers modulo the group order.
- `src/transcript.rs`, `src/bytes.rs`, `src/codec.rs`, `src/wire.rs`,
  `src/encodings.rs`: Fiat-Shamir transcripts, hashing, and the byte encodings
  that messages are signed and sent in.
- `src/encryption/`: ElGamal encryption of shares and its proofs.
- `src/one_round_proofs/`, `src/two_round_proofs/`: the Sigma, Fischlin and
  linear-proof systems, with their completeness lemmas.
- `src/one_round.rs`, `src/two_round.rs` and their `laws` modules: the
  protocols, and what their outputs promise (honest runs blame nobody,
  agreement, the public key, key refresh, identifiable aborts).
- `src/runs.rs`: whole runs among freshly keyed parties.

Outside crates (`curve25519-dalek`, `ed25519-dalek`, `bulletproofs`, `merlin`,
`sha2`, `rand`) are called through small trusted wrappers whose contracts
state what their sources show.
