//! The encodings of the protocol's values: every proof, ciphertext and
//! batch that a message carries.

use crate::bytes::{push_u64, u64_le};
use crate::encryption::proofs::DecryptionProof;
use crate::encryption::{BatchEncryptedShares, EncryptedShare, SchnorrDLogProof};
use crate::group::Point;
use crate::one_round_proofs::polyproof_bulletproof::{PolyWellFormedBulletproof, SerializableLinearProof};
use crate::one_round_proofs::polyproof_fischlin::{PolyWellFormedFischlinProof, PolyWellFormedFischlinRound};
use crate::one_round_proofs::PolyWellFormedProof;
use crate::scalar::Scalar;
use crate::two_round_proofs::comeq_proof::ComEqProof;
use crate::two_round_proofs::decom_proof::DecomProof;
use crate::two_round_proofs::decom_proof_fischlin::{DecomFischlinProof, DecomFischlinRound};
use crate::two_round_proofs::pk_proof::PkProof;
use crate::wire::{holds_at, lemma_holds_split, WireCodec};
use std::collections::BTreeMap;
use vstd::prelude::*;
use vstd::std_specs::cmp::OrdSpec;
use vstd::std_specs::iter::IteratorSpec;

verus! {

impl WireCodec for SerializableLinearProof {
    open spec fn encoding(&self) -> Seq<u8> {
        self.0.encoding()
    }

    open spec fn encodable(&self) -> bool {
        &&& self.0.encodable()
    }

    fn encode(&self, out: &mut Vec<u8>) {
        self.0.encode(out);
        assert(out@ =~= old(out)@ + self.encoding());
    }

    fn decode(bytes: &[u8], pos: usize) -> (r: Option<(SerializableLinearProof, usize)>) {
        proof {
            assert forall|c: SerializableLinearProof| c.encodable() && #[trigger] holds_at(bytes@, pos as int, c.encoding()) implies holds_at(bytes@, pos as int, c.0.encoding()) by {
                assert(c.encoding() =~= c.0.encoding());
            }
        }
        proof {
            assert forall|c: SerializableLinearProof| c.encodable() && #[trigger] holds_at(bytes@, pos as int, c.encoding()) implies (c.0.encodable() && holds_at(bytes@, pos as int, c.0.encoding())) by {
                assert(holds_at(bytes@, pos as int, c.0.encoding()));
            }
        }
        let (v0, p0) = match <Vec<u8> as WireCodec>::decode(bytes, pos) {
            Some(x) => x,
            None => {
                return None;
            },
        };
        proof {
            assert forall|c: SerializableLinearProof| c.encodable() && #[trigger] holds_at(bytes@, pos as int, c.encoding()) implies p0 == pos + c.0.encoding().len() && v0.encoding() == c.0.encoding() by {
                assert((c.0.encodable() && holds_at(bytes@, pos as int, c.0.encoding())));
            }
        }
        let v = SerializableLinearProof(v0);
        let r = Some((v, p0));
        proof {
            assert forall|c: SerializableLinearProof| c.encodable() && #[trigger] holds_at(bytes@, pos as int, c.encoding()) implies (r matches Some((w, e)) && w.encoding() == c.encoding()) by {}
        }
        r
    }
}

impl WireCodec for SchnorrDLogProof {
    open spec fn encoding(&self) -> Seq<u8> {
        self.r_pt.encoding() + self.z.encoding()
    }

    open spec fn encodable(&self) -> bool {
        &&& self.r_pt.encodable()
        &&& self.z.encodable()
    }

    fn encode(&self, out: &mut Vec<u8>) {
        self.r_pt.encode(out);
        self.z.encode(out);
        assert(out@ =~= old(out)@ + self.encoding());
    }

    fn decode(bytes: &[u8], pos: usize) -> (r: Option<(SchnorrDLogProof, usize)>) {
        proof {
            assert forall|c: SchnorrDLogProof| c.encodable() && #[trigger] holds_at(bytes@, pos as int, c.encoding()) implies holds_at(bytes@, pos as int, c.r_pt.encoding() + c.z.encoding()) by {
                assert(c.encoding() =~= c.r_pt.encoding() + c.z.encoding());
            }
        }
        proof {
            assert forall|c: SchnorrDLogProof| c.encodable() && #[trigger] holds_at(bytes@, pos as int, c.encoding()) implies (c.r_pt.encodable() && holds_at(bytes@, pos as int, c.r_pt.encoding())) && holds_at(bytes@, pos + c.r_pt.encoding().len(), c.z.encoding()) by {
                lemma_holds_split(bytes@, pos as int, c.r_pt.encoding(), c.z.encoding());
            }
        }
        let (r_pt, p0) = match <Point as WireCodec>::decode(bytes, pos) {
            Some(x) => x,
            None => {
                return None;
            },
        };
        proof {
            assert forall|c: SchnorrDLogProof| c.encodable() && #[trigger] holds_at(bytes@, pos as int, c.encoding()) implies p0 == pos + c.r_pt.encoding().len() && r_pt.encoding() == c.r_pt.encoding() by {
                assert((c.r_pt.encodable() && holds_at(bytes@, pos as int, c.r_pt.encoding())));
            }
        }
        proof {
            assert forall|c: SchnorrDLogProof| c.encodable() && #[trigger] holds_at(bytes@, pos as int, c.encoding()) implies (c.z.encodable() && holds_at(bytes@, p0 as int, c.z.encoding())) by {
                assert(holds_at(bytes@, p0 as int, c.z.encoding()));
            }
        }
        let (z, p1) = match <Scalar as WireCodec>::decode(bytes, p0) {
            Some(x) => x,
            None => {
                return None;
            },
        };
        proof {
            assert forall|c: SchnorrDLogProof| c.encodable() && #[trigger] holds_at(bytes@, pos as int, c.encoding()) implies p1 == p0 + c.z.encoding().len() && z.encoding() == c.z.encoding() by {
                assert((c.z.encodable() && holds_at(bytes@, p0 as int, c.z.encoding())));
            }
        }
        let v = SchnorrDLogProof { r_pt, z };
        proof {
            assert(bytes@.subrange(pos as int, p1 as int) =~= bytes@.subrange(pos as int, p0 as int) + bytes@.subrange(p0 as int, p1 as int));
        }
        let r = Some((v, p1));
        proof {
            assert forall|c: SchnorrDLogProof| c.encodable() && #[trigger] holds_at(bytes@, pos as int, c.encoding()) implies (r matches Some((w, e)) && w.encoding() == c.encoding()) by {}
        }
        r
    }
}

impl WireCodec for EncryptedShare {
    open spec fn encoding(&self) -> Seq<u8> {
        self.v1.encoding() + self.v2.encoding()
    }

    open spec fn encodable(&self) -> bool {
        &&& self.v1.encodable()
        &&& self.v2.encodable()
    }

    fn encode(&self, out: &mut Vec<u8>) {
        self.v1.encode(out);
        self.v2.encode(out);
        assert(out@ =~= old(out)@ + self.encoding());
    }

    fn decode(bytes: &[u8], pos: usize) -> (r: Option<(EncryptedShare, usize)>) {
        proof {
            assert forall|c: EncryptedShare| c.encodable() && #[trigger] holds_at(bytes@, pos as int, c.encoding()) implies holds_at(bytes@, pos as int, c.v1.encoding() + c.v2.encoding()) by {
                assert(c.encoding() =~= c.v1.encoding() + c.v2.encoding());
            }
        }
        proof {
            assert forall|c: EncryptedShare| c.encodable() && #[trigger] holds_at(bytes@, pos as int, c.encoding()) implies (c.v1.encodable() && holds_at(bytes@, pos as int, c.v1.encoding())) && holds_at(bytes@, pos + c.v1.encoding().len(), c.v2.encoding()) by {
                lemma_holds_split(bytes@, pos as int, c.v1.encoding(), c.v2.encoding());
            }
        }
        let (v1, p0) = match <Scalar as WireCodec>::decode(bytes, pos) {
            Some(x) => x,
            None => {
                return None;
            },
        };
        proof {
            assert forall|c: EncryptedShare| c.encodable() && #[trigger] holds_at(bytes@, pos as int, c.encoding()) implies p0 == pos + c.v1.encoding().len() && v1.encoding() == c.v1.encoding() by {
                assert((c.v1.encodable() && holds_at(bytes@, pos as int, c.v1.encoding())));
            }
        }
        proof {
            assert forall|c: EncryptedShare| c.encodable() && #[trigger] holds_at(bytes@, pos as int, c.encoding()) implies (c.v2.encodable() && holds_at(bytes@, p0 as int, c.v2.encoding())) by {
                assert(holds_at(bytes@, p0 as int, c.v2.encoding()));
            }
        }
        let (v2, p1) = match <Scalar as WireCodec>::decode(bytes, p0) {
            Some(x) => x,
            None => {
                return None;
            },
        };
        proof {
            assert forall|c: EncryptedShare| c.encodable() && #[trigger] holds_at(bytes@, pos as int, c.encoding()) implies p1 == p0 + c.v2.encoding().len() && v2.encoding() == c.v2.encoding() by {
                assert((c.v2.encodable() && holds_at(bytes@, p0 as int, c.v2.encoding())));
            }
        }
        let v = EncryptedShare { v1, v2 };
        proof {
            assert(bytes@.subrange(pos as int, p1 as int) =~= bytes@.subrange(pos as int, p0 as int) + bytes@.subrange(p0 as int, p1 as int));
        }
        let r = Some((v, p1));
        proof {
            assert forall|c: EncryptedShare| c.encodable() && #[trigger] holds_at(bytes@, pos as int, c.encoding()) implies (r matches Some((w, e)) && w.encoding() == c.encoding()) by {}
        }
        r
    }
}

impl WireCodec for DecryptionProof {
    open spec fn encoding(&self) -> Seq<u8> {
        self.a1.encoding() + self.a2.encoding() + self.z.encoding()
    }

    open spec fn encodable(&self) -> bool {
        &&& self.a1.encodable()
        &&& self.a2.encodable()
        &&& self.z.encodable()
    }

    fn encode(&self, out: &mut Vec<u8>) {
        self.a1.encode(out);
        self.a2.encode(out);
        self.z.encode(out);
        assert(out@ =~= old(out)@ + self.encoding());
    }

    fn decode(bytes: &[u8], pos: usize) -> (r: Option<(DecryptionProof, usize)>) {
        proof {
            assert forall|c: DecryptionProof| c.encodable() && #[trigger] holds_at(bytes@, pos as int, c.encoding()) implies holds_at(bytes@, pos as int, c.a1.encoding() + (c.a2.encoding() + c.z.encoding())) by {
                assert(c.encoding() =~= c.a1.encoding() + (c.a2.encoding() + c.z.encoding()));
            }
        }
        proof {
            assert forall|c: DecryptionProof| c.encodable() && #[trigger] holds_at(bytes@, pos as int, c.encoding()) implies (c.a1.encodable() && holds_at(bytes@, pos as int, c.a1.encoding())) && holds_at(bytes@, pos + c.a1.encoding().len(), c.a2.encoding() + c.z.encoding()) by {
                lemma_holds_split(bytes@, pos as int, c.a1.encoding(), c.a2.encoding() + c.z.encoding());
            }
        }
        let (a1, p0) = match <Point as WireCodec>::decode(bytes, pos) {
            Some(x) => x,
            None => {
                return None;
            },
        };
        proof {
            assert forall|c: DecryptionProof| c.encodable() && #[trigger] holds_at(bytes@, pos as int, c.encoding()) implies p0 == pos + c.a1.encoding().len() && a1.encoding() == c.a1.encoding() by {
                assert((c.a1.encodable() && holds_at(bytes@, pos as int, c.a1.encoding())));
            }
        }
        proof {
            assert forall|c: DecryptionProof| c.encodable() && #[trigger] holds_at(bytes@, pos as int, c.encoding()) implies (c.a2.encodable() && holds_at(bytes@, p0 as int, c.a2.encoding())) && holds_at(bytes@, p0 + c.a2.encoding().len(), c.z.encoding()) by {
                lemma_holds_split(bytes@, p0 as int, c.a2.encoding(), c.z.encoding());
            }
        }
        let (a2, p1) = match <Point as WireCodec>::decode(bytes, p0) {
            Some(x) => x,
            None => {
                return None;
            },
        };
        proof {
            assert forall|c: DecryptionProof| c.encodable() && #[trigger] holds_at(bytes@, pos as int, c.encoding()) implies p1 == p0 + c.a2.encoding().len() && a2.encoding() == c.a2.encoding() by {
                assert((c.a2.encodable() && holds_at(bytes@, p0 as int, c.a2.encoding())));
            }
        }
        proof {
            assert forall|c: DecryptionProof| c.encodable() && #[trigger] holds_at(bytes@, pos as int, c.encoding()) implies (c.z.encodable() && holds_at(bytes@, p1 as int, c.z.encoding())) by {
                assert(holds_at(bytes@, p1 as int, c.z.encoding()));
            }
        }
        let (z, p2) = match <Scalar as WireCodec>::decode(bytes, p1) {
            Some(x) => x,
            None => {
                return None;
            },
        };
        proof {
            assert forall|c: DecryptionProof| c.encodable() && #[trigger] holds_at(bytes@, pos as int, c.encoding()) implies p2 == p1 + c.z.encoding().len() && z.encoding() == c.z.encoding() by {
                assert((c.z.encodable() && holds_at(bytes@, p1 as int, c.z.encoding())));
            }
        }
        let v = DecryptionProof { a1, a2, z };
        proof {
            assert(bytes@.subrange(pos as int, p2 as int) =~= bytes@.subrange(pos as int, p0 as int) + bytes@.subrange(p0 as int, p1 as int) + bytes@.subrange(p1 as int, p2 as int));
        }
        let r = Some((v, p2));
        proof {
            assert forall|c: DecryptionProof| c.encodable() && #[trigger] holds_at(bytes@, pos as int, c.encoding()) implies (r matches Some((w, e)) && w.encoding() == c.encoding()) by {}
        }
        r
    }
}

impl WireCodec for PolyWellFormedProof {
    open spec fn encoding(&self) -> Seq<u8> {
        self.t_commitments.encoding() + self.z_coeffs.encoding() + self.z_blindings.encoding()
    }

    open spec fn encodable(&self) -> bool {
        &&& self.t_commitments.encodable()
        &&& self.z_coeffs.encodable()
        &&& self.z_blindings.encodable()
    }

    fn encode(&self, out: &mut Vec<u8>) {
        self.t_commitments.encode(out);
        self.z_coeffs.encode(out);
        self.z_blindings.encode(out);
        assert(out@ =~= old(out)@ + self.encoding());
    }

    fn decode(bytes: &[u8], pos: usize) -> (r: Option<(PolyWellFormedProof, usize)>) {
        proof {
            assert forall|c: PolyWellFormedProof| c.encodable() && #[trigger] holds_at(bytes@, pos as int, c.encoding()) implies holds_at(bytes@, pos as int, c.t_commitments.encoding() + (c.z_coeffs.encoding() + c.z_blindings.encoding())) by {
                assert(c.encoding() =~= c.t_commitments.encoding() + (c.z_coeffs.encoding() + c.z_blindings.encoding()));
            }
        }
        proof {
            assert forall|c: PolyWellFormedProof| c.encodable() && #[trigger] holds_at(bytes@, pos as int, c.encoding()) implies (c.t_commitments.encodable() && holds_at(bytes@, pos as int, c.t_commitments.encoding())) && holds_at(bytes@, pos + c.t_commitments.encoding().len(), c.z_coeffs.encoding() + c.z_blindings.encoding()) by {
                lemma_holds_split(bytes@, pos as int, c.t_commitments.encoding(), c.z_coeffs.encoding() + c.z_blindings.encoding());
            }
        }
        let (t_commitments, p0) = match <Vec<Point> as WireCodec>::decode(bytes, pos) {
            Some(x) => x,
            None => {
                return None;
            },
        };
        proof {
            assert forall|c: PolyWellFormedProof| c.encodable() && #[trigger] holds_at(bytes@, pos as int, c.encoding()) implies p0 == pos + c.t_commitments.encoding().len() && t_commitments.encoding() == c.t_commitments.encoding() by {
                assert((c.t_commitments.encodable() && holds_at(bytes@, pos as int, c.t_commitments.encoding())));
            }
        }
        proof {
            assert forall|c: PolyWellFormedProof| c.encodable() && #[trigger] holds_at(bytes@, pos as int, c.encoding()) implies (c.z_coeffs.encodable() && holds_at(bytes@, p0 as int, c.z_coeffs.encoding())) && holds_at(bytes@, p0 + c.z_coeffs.encoding().len(), c.z_blindings.encoding()) by {
                lemma_holds_split(bytes@, p0 as int, c.z_coeffs.encoding(), c.z_blindings.encoding());
            }
        }
        let (z_coeffs, p1) = match <Vec<Scalar> as WireCodec>::decode(bytes, p0) {
            Some(x) => x,
            None => {
                return None;
            },
        };
        proof {
            assert forall|c: PolyWellFormedProof| c.encodable() && #[trigger] holds_at(bytes@, pos as int, c.encoding()) implies p1 == p0 + c.z_coeffs.encoding().len() && z_coeffs.encoding() == c.z_coeffs.encoding() by {
                assert((c.z_coeffs.encodable() && holds_at(bytes@, p0 as int, c.z_coeffs.encoding())));
            }
        }
        proof {
            assert forall|c: PolyWellFormedProof| c.encodable() && #[trigger] holds_at(bytes@, pos as int, c.encoding()) implies (c.z_blindings.encodable() && holds_at(bytes@, p1 as int, c.z_blindings.encoding())) by {
                assert(holds_at(bytes@, p1 as int, c.z_blindings.encoding()));
            }
        }
        let (z_blindings, p2) = match <Vec<Scalar> as WireCodec>::decode(bytes, p1) {
            Some(x) => x,
            None => {
                return None;
            },
        };
        proof {
            assert forall|c: PolyWellFormedProof| c.encodable() && #[trigger] holds_at(bytes@, pos as int, c.encoding()) implies p2 == p1 + c.z_blindings.encoding().len() && z_blindings.encoding() == c.z_blindings.encoding() by {
                assert((c.z_blindings.encodable() && holds_at(bytes@, p1 as int, c.z_blindings.encoding())));
            }
        }
        let v = PolyWellFormedProof { t_commitments, z_coeffs, z_blindings };
        proof {
            assert(bytes@.subrange(pos as int, p2 as int) =~= bytes@.subrange(pos as int, p0 as int) + bytes@.subrange(p0 as int, p1 as int) + bytes@.subrange(p1 as int, p2 as int));
        }
        let r = Some((v, p2));
        proof {
            assert forall|c: PolyWellFormedProof| c.encodable() && #[trigger] holds_at(bytes@, pos as int, c.encoding()) implies (r matches Some((w, e)) && w.encoding() == c.encoding()) by {}
        }
        r
    }
}

impl WireCodec for PolyWellFormedFischlinRound {
    open spec fn encoding(&self) -> Seq<u8> {
        self.t_commitments.encoding() + self.e.encoding() + self.z_coeffs.encoding() + self.z_blindings.encoding()
    }

    open spec fn encodable(&self) -> bool {
        &&& self.t_commitments.encodable()
        &&& self.e.encodable()
        &&& self.z_coeffs.encodable()
        &&& self.z_blindings.encodable()
    }

    fn encode(&self, out: &mut Vec<u8>) {
        self.t_commitments.encode(out);
        self.e.encode(out);
        self.z_coeffs.encode(out);
        self.z_blindings.encode(out);
        assert(out@ =~= old(out)@ + self.encoding());
    }

    fn decode(bytes: &[u8], pos: usize) -> (r: Option<(PolyWellFormedFischlinRound, usize)>) {
        proof {
            assert forall|c: PolyWellFormedFischlinRound| c.encodable() && #[trigger] holds_at(bytes@, pos as int, c.encoding()) implies holds_at(bytes@, pos as int, c.t_commitments.encoding() + (c.e.encoding() + (c.z_coeffs.encoding() + c.z_blindings.encoding()))) by {
                assert(c.encoding() =~= c.t_commitments.encoding() + (c.e.encoding() + (c.z_coeffs.encoding() + c.z_blindings.encoding())));
            }
        }
        proof {
            assert forall|c: PolyWellFormedFischlinRound| c.encodable() && #[trigger] holds_at(bytes@, pos as int, c.encoding()) implies (c.t_commitments.encodable() && holds_at(bytes@, pos as int, c.t_commitments.encoding())) && holds_at(bytes@, pos + c.t_commitments.encoding().len(), c.e.encoding() + (c.z_coeffs.encoding() + c.z_blindings.encoding())) by {
                lemma_holds_split(bytes@, pos as int, c.t_commitments.encoding(), c.e.encoding() + (c.z_coeffs.encoding() + c.z_blindings.encoding()));
            }
        }
        let (t_commitments, p0) = match <Vec<Point> as WireCodec>::decode(bytes, pos) {
            Some(x) => x,
            None => {
                return None;
            },
        };
        proof {
            assert forall|c: PolyWellFormedFischlinRound| c.encodable() && #[trigger] holds_at(bytes@, pos as int, c.encoding()) implies p0 == pos + c.t_commitments.encoding().len() && t_commitments.encoding() == c.t_commitments.encoding() by {
                assert((c.t_commitments.encodable() && holds_at(bytes@, pos as int, c.t_commitments.encoding())));
            }
        }
        proof {
            assert forall|c: PolyWellFormedFischlinRound| c.encodable() && #[trigger] holds_at(bytes@, pos as int, c.encoding()) implies (c.e.encodable() && holds_at(bytes@, p0 as int, c.e.encoding())) && holds_at(bytes@, p0 + c.e.encoding().len(), c.z_coeffs.encoding() + c.z_blindings.encoding()) by {
                lemma_holds_split(bytes@, p0 as int, c.e.encoding(), c.z_coeffs.encoding() + c.z_blindings.encoding());
            }
        }
        let (e, p1) = match <u16 as WireCodec>::decode(bytes, p0) {
            Some(x) => x,
            None => {
                return None;
            },
        };
        proof {
            assert forall|c: PolyWellFormedFischlinRound| c.encodable() && #[trigger] holds_at(bytes@, pos as int, c.encoding()) implies p1 == p0 + c.e.encoding().len() && e.encoding() == c.e.encoding() by {
                assert((c.e.encodable() && holds_at(bytes@, p0 as int, c.e.encoding())));
            }
        }
        proof {
            assert forall|c: PolyWellFormedFischlinRound| c.encodable() && #[trigger] holds_at(bytes@, pos as int, c.encoding()) implies (c.z_coeffs.encodable() && holds_at(bytes@, p1 as int, c.z_coeffs.encoding())) && holds_at(bytes@, p1 + c.z_coeffs.encoding().len(), c.z_blindings.encoding()) by {
                lemma_holds_split(bytes@, p1 as int, c.z_coeffs.encoding(), c.z_blindings.encoding());
            }
        }
        let (z_coeffs, p2) = match <Vec<Scalar> as WireCodec>::decode(bytes, p1) {
            Some(x) => x,
            None => {
                return None;
            },
        };
        proof {
            assert forall|c: PolyWellFormedFischlinRound| c.encodable() && #[trigger] holds_at(bytes@, pos as int, c.encoding()) implies p2 == p1 + c.z_coeffs.encoding().len() && z_coeffs.encoding() == c.z_coeffs.encoding() by {
                assert((c.z_coeffs.encodable() && holds_at(bytes@, p1 as int, c.z_coeffs.encoding())));
            }
        }
        proof {
            assert forall|c: PolyWellFormedFischlinRound| c.encodable() && #[trigger] holds_at(bytes@, pos as int, c.encoding()) implies (c.z_blindings.encodable() && holds_at(bytes@, p2 as int, c.z_blindings.encoding())) by {
                assert(holds_at(bytes@, p2 as int, c.z_blindings.encoding()));
            }
        }
        let (z_blindings, p3) = match <Vec<Scalar> as WireCodec>::decode(bytes, p2) {
            Some(x) => x,
            None => {
                return None;
            },
        };
        proof {
            assert forall|c: PolyWellFormedFischlinRound| c.encodable() && #[trigger] holds_at(bytes@, pos as int, c.encoding()) implies p3 == p2 + c.z_blindings.encoding().len() && z_blindings.encoding() == c.z_blindings.encoding() by {
                assert((c.z_blindings.encodable() && holds_at(bytes@, p2 as int, c.z_blindings.encoding())));
            }
        }
        let v = PolyWellFormedFischlinRound { t_commitments, e, z_coeffs, z_blindings };
        proof {
            assert(bytes@.subrange(pos as int, p3 as int) =~= bytes@.subrange(pos as int, p0 as int) + bytes@.subrange(p0 as int, p1 as int) + bytes@.subrange(p1 as int, p2 as int) + bytes@.subrange(p2 as int, p3 as int));
        }
        let r = Some((v, p3));
        proof {
            assert forall|c: PolyWellFormedFischlinRound| c.encodable() && #[trigger] holds_at(bytes@, pos as int, c.encoding()) implies (r matches Some((w, e)) && w.encoding() == c.encoding()) by {}
        }
        r
    }
}

impl WireCodec for PolyWellFormedFischlinProof {
    open spec fn encoding(&self) -> Seq<u8> {
        self.rounds.encoding()
    }

    open spec fn encodable(&self) -> bool {
        &&& self.rounds.encodable()
    }

    fn encode(&self, out: &mut Vec<u8>) {
        self.rounds.encode(out);
        assert(out@ =~= old(out)@ + self.encoding());
    }

    fn decode(bytes: &[u8], pos: usize) -> (r: Option<(PolyWellFormedFischlinProof, usize)>) {
        proof {
            assert forall|c: PolyWellFormedFischlinProof| c.encodable() && #[trigger] holds_at(bytes@, pos as int, c.encoding()) implies holds_at(bytes@, pos as int, c.rounds.encoding()) by {
                assert(c.encoding() =~= c.rounds.encoding());
            }
        }
        proof {
            assert forall|c: PolyWellFormedFischlinProof| c.encodable() && #[trigger] holds_at(bytes@, pos as int, c.encoding()) implies (c.rounds.encodable() && holds_at(bytes@, pos as int, c.rounds.encoding())) by {
                assert(holds_at(bytes@, pos as int, c.rounds.encoding()));
            }
        }
        let (rounds, p0) = match <Vec<PolyWellFormedFischlinRound> as WireCodec>::decode(bytes, pos) {
            Some(x) => x,
            None => {
                return None;
            },
        };
        proof {
            assert forall|c: PolyWellFormedFischlinProof| c.encodable() && #[trigger] holds_at(bytes@, pos as int, c.encoding()) implies p0 == pos + c.rounds.encoding().len() && rounds.encoding() == c.rounds.encoding() by {
                assert((c.rounds.encodable() && holds_at(bytes@, pos as int, c.rounds.encoding())));
            }
        }
        let v = PolyWellFormedFischlinProof { rounds };
        let r = Some((v, p0));
        proof {
            assert forall|c: PolyWellFormedFischlinProof| c.encodable() && #[trigger] holds_at(bytes@, pos as int, c.encoding()) implies (r matches Some((w, e)) && w.encoding() == c.encoding()) by {}
        }
        r
    }
}

impl WireCodec for PolyWellFormedBulletproof {
    open spec fn encoding(&self) -> Seq<u8> {
        self.degree.encoding() + self.coeff_cf.encoding() + self.coeff_output.encoding() + self.coeff_proof.encoding() + self.blind_cf.encoding() + self.blind_output.encoding() + self.blind_proof.encoding()
    }

    open spec fn encodable(&self) -> bool {
        &&& self.degree.encodable()
        &&& self.coeff_cf.encodable()
        &&& self.coeff_output.encodable()
        &&& self.coeff_proof.encodable()
        &&& self.blind_cf.encodable()
        &&& self.blind_output.encodable()
        &&& self.blind_proof.encodable()
    }

    fn encode(&self, out: &mut Vec<u8>) {
        self.degree.encode(out);
        self.coeff_cf.encode(out);
        self.coeff_output.encode(out);
        self.coeff_proof.encode(out);
        self.blind_cf.encode(out);
        self.blind_output.encode(out);
        self.blind_proof.encode(out);
        assert(out@ =~= old(out)@ + self.encoding());
    }

    #[verifier::spinoff_prover]
    #[verifier::rlimit(50)]
    fn decode(bytes: &[u8], pos: usize) -> (r: Option<(PolyWellFormedBulletproof, usize)>) {
        proof {
            assert forall|c: PolyWellFormedBulletproof| c.encodable() && #[trigger] holds_at(bytes@, pos as int, c.encoding()) implies holds_at(bytes@, pos as int, c.degree.encoding() + (c.coeff_cf.encoding() + (c.coeff_output.encoding() + (c.coeff_proof.encoding() + (c.blind_cf.encoding() + (c.blind_output.encoding() + c.blind_proof.encoding())))))) by {
                assert(c.encoding() =~= c.degree.encoding() + (c.coeff_cf.encoding() + (c.coeff_output.encoding() + (c.coeff_proof.encoding() + (c.blind_cf.encoding() + (c.blind_output.encoding() + c.blind_proof.encoding()))))));
            }
        }
        proof {
            assert forall|c: PolyWellFormedBulletproof| c.encodable() && #[trigger] holds_at(bytes@, pos as int, c.encoding()) implies (c.degree.encodable() && holds_at(bytes@, pos as int, c.degree.encoding())) && holds_at(bytes@, pos + c.degree.encoding().len(), c.coeff_cf.encoding() + (c.coeff_output.encoding() + (c.coeff_proof.encoding() + (c.blind_cf.encoding() + (c.blind_output.encoding() + c.blind_proof.encoding()))))) by {
                lemma_holds_split(bytes@, pos as int, c.degree.encoding(), c.coeff_cf.encoding() + (c.coeff_output.encoding() + (c.coeff_proof.encoding() + (c.blind_cf.encoding() + (c.blind_output.encoding() + c.blind_proof.encoding())))));
            }
        }
        let (degree, p0) = match <usize as WireCodec>::decode(bytes, pos) {
            Some(x) => x,
            None => {
                return None;
            },
        };
        proof {
            assert forall|c: PolyWellFormedBulletproof| c.encodable() && #[trigger] holds_at(bytes@, pos as int, c.encoding()) implies p0 == pos + c.degree.encoding().len() && degree.encoding() == c.degree.encoding() by {
                assert((c.degree.encodable() && holds_at(bytes@, pos as int, c.degree.encoding())));
            }
        }
        proof {
            assert forall|c: PolyWellFormedBulletproof| c.encodable() && #[trigger] holds_at(bytes@, pos as int, c.encoding()) implies (c.coeff_cf.encodable() && holds_at(bytes@, p0 as int, c.coeff_cf.encoding())) && holds_at(bytes@, p0 + c.coeff_cf.encoding().len(), c.coeff_output.encoding() + (c.coeff_proof.encoding() + (c.blind_cf.encoding() + (c.blind_output.encoding() + c.blind_proof.encoding())))) by {
                lemma_holds_split(bytes@, p0 as int, c.coeff_cf.encoding(), c.coeff_output.encoding() + (c.coeff_proof.encoding() + (c.blind_cf.encoding() + (c.blind_output.encoding() + c.blind_proof.encoding()))));
            }
        }
        let (coeff_cf, p1) = match <Point as WireCodec>::decode(bytes, p0) {
            Some(x) => x,
            None => {
                return None;
            },
        };
        proof {
            assert forall|c: PolyWellFormedBulletproof| c.encodable() && #[trigger] holds_at(bytes@, pos as int, c.encoding()) implies p1 == p0 + c.coeff_cf.encoding().len() && coeff_cf.encoding() == c.coeff_cf.encoding() by {
                assert((c.coeff_cf.encodable() && holds_at(bytes@, p0 as int, c.coeff_cf.encoding())));
            }
        }
        proof {
            assert forall|c: PolyWellFormedBulletproof| c.encodable() && #[trigger] holds_at(bytes@, pos as int, c.encoding()) implies (c.coeff_output.encodable() && holds_at(bytes@, p1 as int, c.coeff_output.encoding())) && holds_at(bytes@, p1 + c.coeff_output.encoding().len(), c.coeff_proof.encoding() + (c.blind_cf.encoding() + (c.blind_output.encoding() + c.blind_proof.encoding()))) by {
                lemma_holds_split(bytes@, p1 as int, c.coeff_output.encoding(), c.coeff_proof.encoding() + (c.blind_cf.encoding() + (c.blind_output.encoding() + c.blind_proof.encoding())));
            }
        }
        let (coeff_output, p2) = match <Point as WireCodec>::decode(bytes, p1) {
            Some(x) => x,
            None => {
                return None;
            },
        };
        proof {
            assert forall|c: PolyWellFormedBulletproof| c.encodable() && #[trigger] holds_at(bytes@, pos as int, c.encoding()) implies p2 == p1 + c.coeff_output.encoding().len() && coeff_output.encoding() == c.coeff_output.encoding() by {
                assert((c.coeff_output.encodable() && holds_at(bytes@, p1 as int, c.coeff_output.encoding())));
            }
        }
        proof {
            assert forall|c: PolyWellFormedBulletproof| c.encodable() && #[trigger] holds_at(bytes@, pos as int, c.encoding()) implies (c.coeff_proof.encodable() && holds_at(bytes@, p2 as int, c.coeff_proof.encoding())) && holds_at(bytes@, p2 + c.coeff_proof.encoding().len(), c.blind_cf.encoding() + (c.blind_output.encoding() + c.blind_proof.encoding())) by {
                lemma_holds_split(bytes@, p2 as int, c.coeff_proof.encoding(), c.blind_cf.encoding() + (c.blind_output.encoding() + c.blind_proof.encoding()));
            }
        }
        let (coeff_proof, p3) = match <SerializableLinearProof as WireCodec>::decode(bytes, p2) {
            Some(x) => x,
            None => {
                return None;
            },
        };
        proof {
            assert forall|c: PolyWellFormedBulletproof| c.encodable() && #[trigger] holds_at(bytes@, pos as int, c.encoding()) implies p3 == p2 + c.coeff_proof.encoding().len() && coeff_proof.encoding() == c.coeff_proof.encoding() by {
                assert((c.coeff_proof.encodable() && holds_at(bytes@, p2 as int, c.coeff_proof.encoding())));
            }
        }
        proof {
            assert forall|c: PolyWellFormedBulletproof| c.encodable() && #[trigger] holds_at(bytes@, pos as int, c.encoding()) implies (c.blind_cf.encodable() && holds_at(bytes@, p3 as int, c.blind_cf.encoding())) && holds_at(bytes@, p3 + c.blind_cf.encoding().len(), c.blind_output.encoding() + c.blind_proof.encoding()) by {
                lemma_holds_split(bytes@, p3 as int, c.blind_cf.encoding(), c.blind_output.encoding() + c.blind_proof.encoding());
            }
        }
        let (blind_cf, p4) = match <Point as WireCodec>::decode(bytes, p3) {
            Some(x) => x,
            None => {
                return None;
            },
        };
        proof {
            assert forall|c: PolyWellFormedBulletproof| c.encodable() && #[trigger] holds_at(bytes@, pos as int, c.encoding()) implies p4 == p3 + c.blind_cf.encoding().len() && blind_cf.encoding() == c.blind_cf.encoding() by {
                assert((c.blind_cf.encodable() && holds_at(bytes@, p3 as int, c.blind_cf.encoding())));
            }
        }
        proof {
            assert forall|c: PolyWellFormedBulletproof| c.encodable() && #[trigger] holds_at(bytes@, pos as int, c.encoding()) implies (c.blind_output.encodable() && holds_at(bytes@, p4 as int, c.blind_output.encoding())) && holds_at(bytes@, p4 + c.blind_output.encoding().len(), c.blind_proof.encoding()) by {
                lemma_holds_split(bytes@, p4 as int, c.blind_output.encoding(), c.blind_proof.encoding());
            }
        }
        let (blind_output, p5) = match <Point as WireCodec>::decode(bytes, p4) {
            Some(x) => x,
            None => {
                return None;
            },
        };
        proof {
            assert forall|c: PolyWellFormedBulletproof| c.encodable() && #[trigger] holds_at(bytes@, pos as int, c.encoding()) implies p5 == p4 + c.blind_output.encoding().len() && blind_output.encoding() == c.blind_output.encoding() by {
                assert((c.blind_output.encodable() && holds_at(bytes@, p4 as int, c.blind_output.encoding())));
            }
        }
        proof {
            assert forall|c: PolyWellFormedBulletproof| c.encodable() && #[trigger] holds_at(bytes@, pos as int, c.encoding()) implies (c.blind_proof.encodable() && holds_at(bytes@, p5 as int, c.blind_proof.encoding())) by {
                assert(holds_at(bytes@, p5 as int, c.blind_proof.encoding()));
            }
        }
        let (blind_proof, p6) = match <SerializableLinearProof as WireCodec>::decode(bytes, p5) {
            Some(x) => x,
            None => {
                return None;
            },
        };
        proof {
            assert forall|c: PolyWellFormedBulletproof| c.encodable() && #[trigger] holds_at(bytes@, pos as int, c.encoding()) implies p6 == p5 + c.blind_proof.encoding().len() && blind_proof.encoding() == c.blind_proof.encoding() by {
                assert((c.blind_proof.encodable() && holds_at(bytes@, p5 as int, c.blind_proof.encoding())));
            }
        }
        let v = PolyWellFormedBulletproof { degree, coeff_cf, coeff_output, coeff_proof, blind_cf, blind_output, blind_proof };
        proof {
            assert(bytes@.subrange(pos as int, p6 as int) =~= bytes@.subrange(pos as int, p0 as int) + bytes@.subrange(p0 as int, p1 as int) + bytes@.subrange(p1 as int, p2 as int) + bytes@.subrange(p2 as int, p3 as int) + bytes@.subrange(p3 as int, p4 as int) + bytes@.subrange(p4 as int, p5 as int) + bytes@.subrange(p5 as int, p6 as int));
        }
        let r = Some((v, p6));
        proof {
            assert forall|c: PolyWellFormedBulletproof| c.encodable() && #[trigger] holds_at(bytes@, pos as int, c.encoding()) implies (r matches Some((w, e)) && w.encoding() == c.encoding()) by {}
        }
        r
    }
}

impl WireCodec for ComEqProof {
    open spec fn encoding(&self) -> Seq<u8> {
        self.t_c.encoding() + self.t_vk.encoding() + self.t_d.encoding() + self.z_s.encoding() + self.z_s_prime.encoding() + self.z_omega.encoding() + self.z_r.encoding()
    }

    open spec fn encodable(&self) -> bool {
        &&& self.t_c.encodable()
        &&& self.t_vk.encodable()
        &&& self.t_d.encodable()
        &&& self.z_s.encodable()
        &&& self.z_s_prime.encodable()
        &&& self.z_omega.encodable()
        &&& self.z_r.encodable()
    }

    fn encode(&self, out: &mut Vec<u8>) {
        self.t_c.encode(out);
        self.t_vk.encode(out);
        self.t_d.encode(out);
        self.z_s.encode(out);
        self.z_s_prime.encode(out);
        self.z_omega.encode(out);
        self.z_r.encode(out);
        assert(out@ =~= old(out)@ + self.encoding());
    }

    fn decode(bytes: &[u8], pos: usize) -> (r: Option<(ComEqProof, usize)>) {
        proof {
            assert forall|c: ComEqProof| c.encodable() && #[trigger] holds_at(bytes@, pos as int, c.encoding()) implies holds_at(bytes@, pos as int, c.t_c.encoding() + (c.t_vk.encoding() + (c.t_d.encoding() + (c.z_s.encoding() + (c.z_s_prime.encoding() + (c.z_omega.encoding() + c.z_r.encoding())))))) by {
                assert(c.encoding() =~= c.t_c.encoding() + (c.t_vk.encoding() + (c.t_d.encoding() + (c.z_s.encoding() + (c.z_s_prime.encoding() + (c.z_omega.encoding() + c.z_r.encoding()))))));
            }
        }
        proof {
            assert forall|c: ComEqProof| c.encodable() && #[trigger] holds_at(bytes@, pos as int, c.encoding()) implies (c.t_c.encodable() && holds_at(bytes@, pos as int, c.t_c.encoding())) && holds_at(bytes@, pos + c.t_c.encoding().len(), c.t_vk.encoding() + (c.t_d.encoding() + (c.z_s.encoding() + (c.z_s_prime.encoding() + (c.z_omega.encoding() + c.z_r.encoding()))))) by {
                lemma_holds_split(bytes@, pos as int, c.t_c.encoding(), c.t_vk.encoding() + (c.t_d.encoding() + (c.z_s.encoding() + (c.z_s_prime.encoding() + (c.z_omega.encoding() + c.z_r.encoding())))));
            }
        }
        let (t_c, p0) = match <Point as WireCodec>::decode(bytes, pos) {
            Some(x) => x,
            None => {
                return None;
            },
        };
        proof {
            assert forall|c: ComEqProof| c.encodable() && #[trigger] holds_at(bytes@, pos as int, c.encoding()) implies p0 == pos + c.t_c.encoding().len() && t_c.encoding() == c.t_c.encoding() by {
                assert((c.t_c.encodable() && holds_at(bytes@, pos as int, c.t_c.encoding())));
            }
        }
        proof {
            assert forall|c: ComEqProof| c.encodable() && #[trigger] holds_at(bytes@, pos as int, c.encoding()) implies (c.t_vk.encodable() && holds_at(bytes@, p0 as int, c.t_vk.encoding())) && holds_at(bytes@, p0 + c.t_vk.encoding().len(), c.t_d.encoding() + (c.z_s.encoding() + (c.z_s_prime.encoding() + (c.z_omega.encoding() + c.z_r.encoding())))) by {
                lemma_holds_split(bytes@, p0 as int, c.t_vk.encoding(), c.t_d.encoding() + (c.z_s.encoding() + (c.z_s_prime.encoding() + (c.z_omega.encoding() + c.z_r.encoding()))));
            }
        }
        let (t_vk, p1) = match <Point as WireCodec>::decode(bytes, p0) {
            Some(x) => x,
            None => {
                return None;
            },
        };
        proof {
            assert forall|c: ComEqProof| c.encodable() && #[trigger] holds_at(bytes@, pos as int, c.encoding()) implies p1 == p0 + c.t_vk.encoding().len() && t_vk.encoding() == c.t_vk.encoding() by {
                assert((c.t_vk.encodable() && holds_at(bytes@, p0 as int, c.t_vk.encoding())));
            }
        }
        proof {
            assert forall|c: ComEqProof| c.encodable() && #[trigger] holds_at(bytes@, pos as int, c.encoding()) implies (c.t_d.encodable() && holds_at(bytes@, p1 as int, c.t_d.encoding())) && holds_at(bytes@, p1 + c.t_d.encoding().len(), c.z_s.encoding() + (c.z_s_prime.encoding() + (c.z_omega.encoding() + c.z_r.encoding()))) by {
                lemma_holds_split(bytes@, p1 as int, c.t_d.encoding(), c.z_s.encoding() + (c.z_s_prime.encoding() + (c.z_omega.encoding() + c.z_r.encoding())));
            }
        }
        let (t_d, p2) = match <Point as WireCodec>::decode(bytes, p1) {
            Some(x) => x,
            None => {
                return None;
            },
        };
        proof {
            assert forall|c: ComEqProof| c.encodable() && #[trigger] holds_at(bytes@, pos as int, c.encoding()) implies p2 == p1 + c.t_d.encoding().len() && t_d.encoding() == c.t_d.encoding() by {
                assert((c.t_d.encodable() && holds_at(bytes@, p1 as int, c.t_d.encoding())));
            }
        }
        proof {
            assert forall|c: ComEqProof| c.encodable() && #[trigger] holds_at(bytes@, pos as int, c.encoding()) implies (c.z_s.encodable() && holds_at(bytes@, p2 as int, c.z_s.encoding())) && holds_at(bytes@, p2 + c.z_s.encoding().len(), c.z_s_prime.encoding() + (c.z_omega.encoding() + c.z_r.encoding())) by {
                lemma_holds_split(bytes@, p2 as int, c.z_s.encoding(), c.z_s_prime.encoding() + (c.z_omega.encoding() + c.z_r.encoding()));
            }
        }
        let (z_s, p3) = match <Scalar as WireCodec>::decode(bytes, p2) {
            Some(x) => x,
            None => {
                return None;
            },
        };
        proof {
            assert forall|c: ComEqProof| c.encodable() && #[trigger] holds_at(bytes@, pos as int, c.encoding()) implies p3 == p2 + c.z_s.encoding().len() && z_s.encoding() == c.z_s.encoding() by {
                assert((c.z_s.encodable() && holds_at(bytes@, p2 as int, c.z_s.encoding())));
            }
        }
        proof {
            assert forall|c: ComEqProof| c.encodable() && #[trigger] holds_at(bytes@, pos as int, c.encoding()) implies (c.z_s_prime.encodable() && holds_at(bytes@, p3 as int, c.z_s_prime.encoding())) && holds_at(bytes@, p3 + c.z_s_prime.encoding().len(), c.z_omega.encoding() + c.z_r.encoding()) by {
                lemma_holds_split(bytes@, p3 as int, c.z_s_prime.encoding(), c.z_omega.encoding() + c.z_r.encoding());
            }
        }
        let (z_s_prime, p4) = match <Scalar as WireCodec>::decode(bytes, p3) {
            Some(x) => x,
            None => {
                return None;
            },
        };
        proof {
            assert forall|c: ComEqProof| c.encodable() && #[trigger] holds_at(bytes@, pos as int, c.encoding()) implies p4 == p3 + c.z_s_prime.encoding().len() && z_s_prime.encoding() == c.z_s_prime.encoding() by {
                assert((c.z_s_prime.encodable() && holds_at(bytes@, p3 as int, c.z_s_prime.encoding())));
            }
        }
        proof {
            assert forall|c: ComEqProof| c.encodable() && #[trigger] holds_at(bytes@, pos as int, c.encoding()) implies (c.z_omega.encodable() && holds_at(bytes@, p4 as int, c.z_omega.encoding())) && holds_at(bytes@, p4 + c.z_omega.encoding().len(), c.z_r.encoding()) by {
                lemma_holds_split(bytes@, p4 as int, c.z_omega.encoding(), c.z_r.encoding());
            }
        }
        let (z_omega, p5) = match <Scalar as WireCodec>::decode(bytes, p4) {
            Some(x) => x,
            None => {
                return None;
            },
        };
        proof {
            assert forall|c: ComEqProof| c.encodable() && #[trigger] holds_at(bytes@, pos as int, c.encoding()) implies p5 == p4 + c.z_omega.encoding().len() && z_omega.encoding() == c.z_omega.encoding() by {
                assert((c.z_omega.encodable() && holds_at(bytes@, p4 as int, c.z_omega.encoding())));
            }
        }
        proof {
            assert forall|c: ComEqProof| c.encodable() && #[trigger] holds_at(bytes@, pos as int, c.encoding()) implies (c.z_r.encodable() && holds_at(bytes@, p5 as int, c.z_r.encoding())) by {
                assert(holds_at(bytes@, p5 as int, c.z_r.encoding()));
            }
        }
        let (z_r, p6) = match <Scalar as WireCodec>::decode(bytes, p5) {
            Some(x) => x,
            None => {
                return None;
            },
        };
        proof {
            assert forall|c: ComEqProof| c.encodable() && #[trigger] holds_at(bytes@, pos as int, c.encoding()) implies p6 == p5 + c.z_r.encoding().len() && z_r.encoding() == c.z_r.encoding() by {
                assert((c.z_r.encodable() && holds_at(bytes@, p5 as int, c.z_r.encoding())));
            }
        }
        let v = ComEqProof { t_c, t_vk, t_d, z_s, z_s_prime, z_omega, z_r };
        proof {
            assert(bytes@.subrange(pos as int, p6 as int) =~= bytes@.subrange(pos as int, p0 as int) + bytes@.subrange(p0 as int, p1 as int) + bytes@.subrange(p1 as int, p2 as int) + bytes@.subrange(p2 as int, p3 as int) + bytes@.subrange(p3 as int, p4 as int) + bytes@.subrange(p4 as int, p5 as int) + bytes@.subrange(p5 as int, p6 as int));
        }
        let r = Some((v, p6));
        proof {
            assert forall|c: ComEqProof| c.encodable() && #[trigger] holds_at(bytes@, pos as int, c.encoding()) implies (r matches Some((w, e)) && w.encoding() == c.encoding()) by {}
        }
        r
    }
}

impl WireCodec for PkProof {
    open spec fn encoding(&self) -> Seq<u8> {
        self.t_pk.encoding() + self.t_com.encoding() + self.z_a.encoding() + self.z_b.encoding()
    }

    open spec fn encodable(&self) -> bool {
        &&& self.t_pk.encodable()
        &&& self.t_com.encodable()
        &&& self.z_a.encodable()
        &&& self.z_b.encodable()
    }

    fn encode(&self, out: &mut Vec<u8>) {
        self.t_pk.encode(out);
        self.t_com.encode(out);
        self.z_a.encode(out);
        self.z_b.encode(out);
        assert(out@ =~= old(out)@ + self.encoding());
    }

    fn decode(bytes: &[u8], pos: usize) -> (r: Option<(PkProof, usize)>) {
        proof {
            assert forall|c: PkProof| c.encodable() && #[trigger] holds_at(bytes@, pos as int, c.encoding()) implies holds_at(bytes@, pos as int, c.t_pk.encoding() + (c.t_com.encoding() + (c.z_a.encoding() + c.z_b.encoding()))) by {
                assert(c.encoding() =~= c.t_pk.encoding() + (c.t_com.encoding() + (c.z_a.encoding() + c.z_b.encoding())));
            }
        }
        proof {
            assert forall|c: PkProof| c.encodable() && #[trigger] holds_at(bytes@, pos as int, c.encoding()) implies (c.t_pk.encodable() && holds_at(bytes@, pos as int, c.t_pk.encoding())) && holds_at(bytes@, pos + c.t_pk.encoding().len(), c.t_com.encoding() + (c.z_a.encoding() + c.z_b.encoding())) by {
                lemma_holds_split(bytes@, pos as int, c.t_pk.encoding(), c.t_com.encoding() + (c.z_a.encoding() + c.z_b.encoding()));
            }
        }
        let (t_pk, p0) = match <Point as WireCodec>::decode(bytes, pos) {
            Some(x) => x,
            None => {
                return None;
            },
        };
        proof {
            assert forall|c: PkProof| c.encodable() && #[trigger] holds_at(bytes@, pos as int, c.encoding()) implies p0 == pos + c.t_pk.encoding().len() && t_pk.encoding() == c.t_pk.encoding() by {
                assert((c.t_pk.encodable() && holds_at(bytes@, pos as int, c.t_pk.encoding())));
            }
        }
        proof {
            assert forall|c: PkProof| c.encodable() && #[trigger] holds_at(bytes@, pos as int, c.encoding()) implies (c.t_com.encodable() && holds_at(bytes@, p0 as int, c.t_com.encoding())) && holds_at(bytes@, p0 + c.t_com.encoding().len(), c.z_a.encoding() + c.z_b.encoding()) by {
                lemma_holds_split(bytes@, p0 as int, c.t_com.encoding(), c.z_a.encoding() + c.z_b.encoding());
            }
        }
        let (t_com, p1) = match <Point as WireCodec>::decode(bytes, p0) {
            Some(x) => x,
            None => {
                return None;
            },
        };
        proof {
            assert forall|c: PkProof| c.encodable() && #[trigger] holds_at(bytes@, pos as int, c.encoding()) implies p1 == p0 + c.t_com.encoding().len() && t_com.encoding() == c.t_com.encoding() by {
                assert((c.t_com.encodable() && holds_at(bytes@, p0 as int, c.t_com.encoding())));
            }
        }
        proof {
            assert forall|c: PkProof| c.encodable() && #[trigger] holds_at(bytes@, pos as int, c.encoding()) implies (c.z_a.encodable() && holds_at(bytes@, p1 as int, c.z_a.encoding())) && holds_at(bytes@, p1 + c.z_a.encoding().len(), c.z_b.encoding()) by {
                lemma_holds_split(bytes@, p1 as int, c.z_a.encoding(), c.z_b.encoding());
            }
        }
        let (z_a, p2) = match <Scalar as WireCodec>::decode(bytes, p1) {
            Some(x) => x,
            None => {
                return None;
            },
        };
        proof {
            assert forall|c: PkProof| c.encodable() && #[trigger] holds_at(bytes@, pos as int, c.encoding()) implies p2 == p1 + c.z_a.encoding().len() && z_a.encoding() == c.z_a.encoding() by {
                assert((c.z_a.encodable() && holds_at(bytes@, p1 as int, c.z_a.encoding())));
            }
        }
        proof {
            assert forall|c: PkProof| c.encodable() && #[trigger] holds_at(bytes@, pos as int, c.encoding()) implies (c.z_b.encodable() && holds_at(bytes@, p2 as int, c.z_b.encoding())) by {
                assert(holds_at(bytes@, p2 as int, c.z_b.encoding()));
            }
        }
        let (z_b, p3) = match <Scalar as WireCodec>::decode(bytes, p2) {
            Some(x) => x,
            None => {
                return None;
            },
        };
        proof {
            assert forall|c: PkProof| c.encodable() && #[trigger] holds_at(bytes@, pos as int, c.encoding()) implies p3 == p2 + c.z_b.encoding().len() && z_b.encoding() == c.z_b.encoding() by {
                assert((c.z_b.encodable() && holds_at(bytes@, p2 as int, c.z_b.encoding())));
            }
        }
        let v = PkProof { t_pk, t_com, z_a, z_b };
        proof {
            assert(bytes@.subrange(pos as int, p3 as int) =~= bytes@.subrange(pos as int, p0 as int) + bytes@.subrange(p0 as int, p1 as int) + bytes@.subrange(p1 as int, p2 as int) + bytes@.subrange(p2 as int, p3 as int));
        }
        let r = Some((v, p3));
        proof {
            assert forall|c: PkProof| c.encodable() && #[trigger] holds_at(bytes@, pos as int, c.encoding()) implies (r matches Some((w, e)) && w.encoding() == c.encoding()) by {}
        }
        r
    }
}

impl WireCodec for DecomProof {
    open spec fn encoding(&self) -> Seq<u8> {
        self.t.encoding() + self.z_a.encoding() + self.z_b.encoding() + self.z_omega.encoding() + self.z_r.encoding()
    }

    open spec fn encodable(&self) -> bool {
        &&& self.t.encodable()
        &&& self.z_a.encodable()
        &&& self.z_b.encodable()
        &&& self.z_omega.encodable()
        &&& self.z_r.encodable()
    }

    fn encode(&self, out: &mut Vec<u8>) {
        self.t.encode(out);
        self.z_a.encode(out);
        self.z_b.encode(out);
        self.z_omega.encode(out);
        self.z_r.encode(out);
        assert(out@ =~= old(out)@ + self.encoding());
    }

    fn decode(bytes: &[u8], pos: usize) -> (r: Option<(DecomProof, usize)>) {
        proof {
            assert forall|c: DecomProof| c.encodable() && #[trigger] holds_at(bytes@, pos as int, c.encoding()) implies holds_at(bytes@, pos as int, c.t.encoding() + (c.z_a.encoding() + (c.z_b.encoding() + (c.z_omega.encoding() + c.z_r.encoding())))) by {
                assert(c.encoding() =~= c.t.encoding() + (c.z_a.encoding() + (c.z_b.encoding() + (c.z_omega.encoding() + c.z_r.encoding()))));
            }
        }
        proof {
            assert forall|c: DecomProof| c.encodable() && #[trigger] holds_at(bytes@, pos as int, c.encoding()) implies (c.t.encodable() && holds_at(bytes@, pos as int, c.t.encoding())) && holds_at(bytes@, pos + c.t.encoding().len(), c.z_a.encoding() + (c.z_b.encoding() + (c.z_omega.encoding() + c.z_r.encoding()))) by {
                lemma_holds_split(bytes@, pos as int, c.t.encoding(), c.z_a.encoding() + (c.z_b.encoding() + (c.z_omega.encoding() + c.z_r.encoding())));
            }
        }
        let (t, p0) = match <Point as WireCodec>::decode(bytes, pos) {
            Some(x) => x,
            None => {
                return None;
            },
        };
        proof {
            assert forall|c: DecomProof| c.encodable() && #[trigger] holds_at(bytes@, pos as int, c.encoding()) implies p0 == pos + c.t.encoding().len() && t.encoding() == c.t.encoding() by {
                assert((c.t.encodable() && holds_at(bytes@, pos as int, c.t.encoding())));
            }
        }
        proof {
            assert forall|c: DecomProof| c.encodable() && #[trigger] holds_at(bytes@, pos as int, c.encoding()) implies (c.z_a.encodable() && holds_at(bytes@, p0 as int, c.z_a.encoding())) && holds_at(bytes@, p0 + c.z_a.encoding().len(), c.z_b.encoding() + (c.z_omega.encoding() + c.z_r.encoding())) by {
                lemma_holds_split(bytes@, p0 as int, c.z_a.encoding(), c.z_b.encoding() + (c.z_omega.encoding() + c.z_r.encoding()));
            }
        }
        let (z_a, p1) = match <Vec<Scalar> as WireCodec>::decode(bytes, p0) {
            Some(x) => x,
            None => {
                return None;
            },
        };
        proof {
            assert forall|c: DecomProof| c.encodable() && #[trigger] holds_at(bytes@, pos as int, c.encoding()) implies p1 == p0 + c.z_a.encoding().len() && z_a.encoding() == c.z_a.encoding() by {
                assert((c.z_a.encodable() && holds_at(bytes@, p0 as int, c.z_a.encoding())));
            }
        }
        proof {
            assert forall|c: DecomProof| c.encodable() && #[trigger] holds_at(bytes@, pos as int, c.encoding()) implies (c.z_b.encodable() && holds_at(bytes@, p1 as int, c.z_b.encoding())) && holds_at(bytes@, p1 + c.z_b.encoding().len(), c.z_omega.encoding() + c.z_r.encoding()) by {
                lemma_holds_split(bytes@, p1 as int, c.z_b.encoding(), c.z_omega.encoding() + c.z_r.encoding());
            }
        }
        let (z_b, p2) = match <Vec<Scalar> as WireCodec>::decode(bytes, p1) {
            Some(x) => x,
            None => {
                return None;
            },
        };
        proof {
            assert forall|c: DecomProof| c.encodable() && #[trigger] holds_at(bytes@, pos as int, c.encoding()) implies p2 == p1 + c.z_b.encoding().len() && z_b.encoding() == c.z_b.encoding() by {
                assert((c.z_b.encodable() && holds_at(bytes@, p1 as int, c.z_b.encoding())));
            }
        }
        proof {
            assert forall|c: DecomProof| c.encodable() && #[trigger] holds_at(bytes@, pos as int, c.encoding()) implies (c.z_omega.encodable() && holds_at(bytes@, p2 as int, c.z_omega.encoding())) && holds_at(bytes@, p2 + c.z_omega.encoding().len(), c.z_r.encoding()) by {
                lemma_holds_split(bytes@, p2 as int, c.z_omega.encoding(), c.z_r.encoding());
            }
        }
        let (z_omega, p3) = match <Scalar as WireCodec>::decode(bytes, p2) {
            Some(x) => x,
            None => {
                return None;
            },
        };
        proof {
            assert forall|c: DecomProof| c.encodable() && #[trigger] holds_at(bytes@, pos as int, c.encoding()) implies p3 == p2 + c.z_omega.encoding().len() && z_omega.encoding() == c.z_omega.encoding() by {
                assert((c.z_omega.encodable() && holds_at(bytes@, p2 as int, c.z_omega.encoding())));
            }
        }
        proof {
            assert forall|c: DecomProof| c.encodable() && #[trigger] holds_at(bytes@, pos as int, c.encoding()) implies (c.z_r.encodable() && holds_at(bytes@, p3 as int, c.z_r.encoding())) by {
                assert(holds_at(bytes@, p3 as int, c.z_r.encoding()));
            }
        }
        let (z_r, p4) = match <Scalar as WireCodec>::decode(bytes, p3) {
            Some(x) => x,
            None => {
                return None;
            },
        };
        proof {
            assert forall|c: DecomProof| c.encodable() && #[trigger] holds_at(bytes@, pos as int, c.encoding()) implies p4 == p3 + c.z_r.encoding().len() && z_r.encoding() == c.z_r.encoding() by {
                assert((c.z_r.encodable() && holds_at(bytes@, p3 as int, c.z_r.encoding())));
            }
        }
        let v = DecomProof { t, z_a, z_b, z_omega, z_r };
        proof {
            assert(bytes@.subrange(pos as int, p4 as int) =~= bytes@.subrange(pos as int, p0 as int) + bytes@.subrange(p0 as int, p1 as int) + bytes@.subrange(p1 as int, p2 as int) + bytes@.subrange(p2 as int, p3 as int) + bytes@.subrange(p3 as int, p4 as int));
        }
        let r = Some((v, p4));
        proof {
            assert forall|c: DecomProof| c.encodable() && #[trigger] holds_at(bytes@, pos as int, c.encoding()) implies (r matches Some((w, e)) && w.encoding() == c.encoding()) by {}
        }
        r
    }
}

impl WireCodec for DecomFischlinRound {
    open spec fn encoding(&self) -> Seq<u8> {
        self.t.encoding() + self.e.encoding() + self.z_a.encoding() + self.z_b.encoding() + self.z_omega.encoding() + self.z_r.encoding()
    }

    open spec fn encodable(&self) -> bool {
        &&& self.t.encodable()
        &&& self.e.encodable()
        &&& self.z_a.encodable()
        &&& self.z_b.encodable()
        &&& self.z_omega.encodable()
        &&& self.z_r.encodable()
    }

    fn encode(&self, out: &mut Vec<u8>) {
        self.t.encode(out);
        self.e.encode(out);
        self.z_a.encode(out);
        self.z_b.encode(out);
        self.z_omega.encode(out);
        self.z_r.encode(out);
        assert(out@ =~= old(out)@ + self.encoding());
    }

    fn decode(bytes: &[u8], pos: usize) -> (r: Option<(DecomFischlinRound, usize)>) {
        proof {
            assert forall|c: DecomFischlinRound| c.encodable() && #[trigger] holds_at(bytes@, pos as int, c.encoding()) implies holds_at(bytes@, pos as int, c.t.encoding() + (c.e.encoding() + (c.z_a.encoding() + (c.z_b.encoding() + (c.z_omega.encoding() + c.z_r.encoding()))))) by {
                assert(c.encoding() =~= c.t.encoding() + (c.e.encoding() + (c.z_a.encoding() + (c.z_b.encoding() + (c.z_omega.encoding() + c.z_r.encoding())))));
            }
        }
        proof {
            assert forall|c: DecomFischlinRound| c.encodable() && #[trigger] holds_at(bytes@, pos as int, c.encoding()) implies (c.t.encodable() && holds_at(bytes@, pos as int, c.t.encoding())) && holds_at(bytes@, pos + c.t.encoding().len(), c.e.encoding() + (c.z_a.encoding() + (c.z_b.encoding() + (c.z_omega.encoding() + c.z_r.encoding())))) by {
                lemma_holds_split(bytes@, pos as int, c.t.encoding(), c.e.encoding() + (c.z_a.encoding() + (c.z_b.encoding() + (c.z_omega.encoding() + c.z_r.encoding()))));
            }
        }
        let (t, p0) = match <Point as WireCodec>::decode(bytes, pos) {
            Some(x) => x,
            None => {
                return None;
            },
        };
        proof {
            assert forall|c: DecomFischlinRound| c.encodable() && #[trigger] holds_at(bytes@, pos as int, c.encoding()) implies p0 == pos + c.t.encoding().len() && t.encoding() == c.t.encoding() by {
                assert((c.t.encodable() && holds_at(bytes@, pos as int, c.t.encoding())));
            }
        }
        proof {
            assert forall|c: DecomFischlinRound| c.encodable() && #[trigger] holds_at(bytes@, pos as int, c.encoding()) implies (c.e.encodable() && holds_at(bytes@, p0 as int, c.e.encoding())) && holds_at(bytes@, p0 + c.e.encoding().len(), c.z_a.encoding() + (c.z_b.encoding() + (c.z_omega.encoding() + c.z_r.encoding()))) by {
                lemma_holds_split(bytes@, p0 as int, c.e.encoding(), c.z_a.encoding() + (c.z_b.encoding() + (c.z_omega.encoding() + c.z_r.encoding())));
            }
        }
        let (e, p1) = match <u16 as WireCodec>::decode(bytes, p0) {
            Some(x) => x,
            None => {
                return None;
            },
        };
        proof {
            assert forall|c: DecomFischlinRound| c.encodable() && #[trigger] holds_at(bytes@, pos as int, c.encoding()) implies p1 == p0 + c.e.encoding().len() && e.encoding() == c.e.encoding() by {
                assert((c.e.encodable() && holds_at(bytes@, p0 as int, c.e.encoding())));
            }
        }
        proof {
            assert forall|c: DecomFischlinRound| c.encodable() && #[trigger] holds_at(bytes@, pos as int, c.encoding()) implies (c.z_a.encodable() && holds_at(bytes@, p1 as int, c.z_a.encoding())) && holds_at(bytes@, p1 + c.z_a.encoding().len(), c.z_b.encoding() + (c.z_omega.encoding() + c.z_r.encoding())) by {
                lemma_holds_split(bytes@, p1 as int, c.z_a.encoding(), c.z_b.encoding() + (c.z_omega.encoding() + c.z_r.encoding()));
            }
        }
        let (z_a, p2) = match <Vec<Scalar> as WireCodec>::decode(bytes, p1) {
            Some(x) => x,
            None => {
                return None;
            },
        };
        proof {
            assert forall|c: DecomFischlinRound| c.encodable() && #[trigger] holds_at(bytes@, pos as int, c.encoding()) implies p2 == p1 + c.z_a.encoding().len() && z_a.encoding() == c.z_a.encoding() by {
                assert((c.z_a.encodable() && holds_at(bytes@, p1 as int, c.z_a.encoding())));
            }
        }
        proof {
            assert forall|c: DecomFischlinRound| c.encodable() && #[trigger] holds_at(bytes@, pos as int, c.encoding()) implies (c.z_b.encodable() && holds_at(bytes@, p2 as int, c.z_b.encoding())) && holds_at(bytes@, p2 + c.z_b.encoding().len(), c.z_omega.encoding() + c.z_r.encoding()) by {
                lemma_holds_split(bytes@, p2 as int, c.z_b.encoding(), c.z_omega.encoding() + c.z_r.encoding());
            }
        }
        let (z_b, p3) = match <Vec<Scalar> as WireCodec>::decode(bytes, p2) {
            Some(x) => x,
            None => {
                return None;
            },
        };
        proof {
            assert forall|c: DecomFischlinRound| c.encodable() && #[trigger] holds_at(bytes@, pos as int, c.encoding()) implies p3 == p2 + c.z_b.encoding().len() && z_b.encoding() == c.z_b.encoding() by {
                assert((c.z_b.encodable() && holds_at(bytes@, p2 as int, c.z_b.encoding())));
            }
        }
        proof {
            assert forall|c: DecomFischlinRound| c.encodable() && #[trigger] holds_at(bytes@, pos as int, c.encoding()) implies (c.z_omega.encodable() && holds_at(bytes@, p3 as int, c.z_omega.encoding())) && holds_at(bytes@, p3 + c.z_omega.encoding().len(), c.z_r.encoding()) by {
                lemma_holds_split(bytes@, p3 as int, c.z_omega.encoding(), c.z_r.encoding());
            }
        }
        let (z_omega, p4) = match <Scalar as WireCodec>::decode(bytes, p3) {
            Some(x) => x,
            None => {
                return None;
            },
        };
        proof {
            assert forall|c: DecomFischlinRound| c.encodable() && #[trigger] holds_at(bytes@, pos as int, c.encoding()) implies p4 == p3 + c.z_omega.encoding().len() && z_omega.encoding() == c.z_omega.encoding() by {
                assert((c.z_omega.encodable() && holds_at(bytes@, p3 as int, c.z_omega.encoding())));
            }
        }
        proof {
            assert forall|c: DecomFischlinRound| c.encodable() && #[trigger] holds_at(bytes@, pos as int, c.encoding()) implies (c.z_r.encodable() && holds_at(bytes@, p4 as int, c.z_r.encoding())) by {
                assert(holds_at(bytes@, p4 as int, c.z_r.encoding()));
            }
        }
        let (z_r, p5) = match <Scalar as WireCodec>::decode(bytes, p4) {
            Some(x) => x,
            None => {
                return None;
            },
        };
        proof {
            assert forall|c: DecomFischlinRound| c.encodable() && #[trigger] holds_at(bytes@, pos as int, c.encoding()) implies p5 == p4 + c.z_r.encoding().len() && z_r.encoding() == c.z_r.encoding() by {
                assert((c.z_r.encodable() && holds_at(bytes@, p4 as int, c.z_r.encoding())));
            }
        }
        let v = DecomFischlinRound { t, e, z_a, z_b, z_omega, z_r };
        proof {
            assert(bytes@.subrange(pos as int, p5 as int) =~= bytes@.subrange(pos as int, p0 as int) + bytes@.subrange(p0 as int, p1 as int) + bytes@.subrange(p1 as int, p2 as int) + bytes@.subrange(p2 as int, p3 as int) + bytes@.subrange(p3 as int, p4 as int) + bytes@.subrange(p4 as int, p5 as int));
        }
        let r = Some((v, p5));
        proof {
            assert forall|c: DecomFischlinRound| c.encodable() && #[trigger] holds_at(bytes@, pos as int, c.encoding()) implies (r matches Some((w, e)) && w.encoding() == c.encoding()) by {}
        }
        r
    }
}

impl WireCodec for DecomFischlinProof {
    open spec fn encoding(&self) -> Seq<u8> {
        self.rounds.encoding()
    }

    open spec fn encodable(&self) -> bool {
        &&& self.rounds.encodable()
    }

    fn encode(&self, out: &mut Vec<u8>) {
        self.rounds.encode(out);
        assert(out@ =~= old(out)@ + self.encoding());
    }

    fn decode(bytes: &[u8], pos: usize) -> (r: Option<(DecomFischlinProof, usize)>) {
        proof {
            assert forall|c: DecomFischlinProof| c.encodable() && #[trigger] holds_at(bytes@, pos as int, c.encoding()) implies holds_at(bytes@, pos as int, c.rounds.encoding()) by {
                assert(c.encoding() =~= c.rounds.encoding());
            }
        }
        proof {
            assert forall|c: DecomFischlinProof| c.encodable() && #[trigger] holds_at(bytes@, pos as int, c.encoding()) implies (c.rounds.encodable() && holds_at(bytes@, pos as int, c.rounds.encoding())) by {
                assert(holds_at(bytes@, pos as int, c.rounds.encoding()));
            }
        }
        let (rounds, p0) = match <Vec<DecomFischlinRound> as WireCodec>::decode(bytes, pos) {
            Some(x) => x,
            None => {
                return None;
            },
        };
        proof {
            assert forall|c: DecomFischlinProof| c.encodable() && #[trigger] holds_at(bytes@, pos as int, c.encoding()) implies p0 == pos + c.rounds.encoding().len() && rounds.encoding() == c.rounds.encoding() by {
                assert((c.rounds.encodable() && holds_at(bytes@, pos as int, c.rounds.encoding())));
            }
        }
        let v = DecomFischlinProof { rounds };
        let r = Some((v, p0));
        proof {
            assert forall|c: DecomFischlinProof| c.encodable() && #[trigger] holds_at(bytes@, pos as int, c.encoding()) implies (r matches Some((w, e)) && w.encoding() == c.encoding()) by {}
        }
        r
    }
}


/// The encodings of a batch's entries, key then share, concatenated.
pub open spec fn entries_encoding(s: Seq<(usize, EncryptedShare)>) -> Seq<u8>
    decreases s.len(),
{
    if s.len() == 0 {
        Seq::empty()
    } else {
        entries_encoding(s.drop_last()) + s.last().0.encoding() + s.last().1.encoding()
    }
}

/// `s` lists the entries of `m` by increasing key.
pub open spec fn lists_shares(s: Seq<(usize, EncryptedShare)>, m: Map<usize, EncryptedShare>) -> bool {
    &&& forall|i: int, j: int| 0 <= i < j < s.len() ==> s[i].0 < s[j].0
    &&& forall|i: int| 0 <= i < s.len() ==> m.contains_key(#[trigger] s[i].0) && m[s[i].0] == s[i].1
    &&& forall|k: usize| m.contains_key(k) ==> exists|i: int| 0 <= i < s.len() && #[trigger] s[i].0 == k
}

/// The entries of a map by increasing key.
pub open spec fn sorted_shares(m: Map<usize, EncryptedShare>) -> Seq<(usize, EncryptedShare)> {
    choose|s: Seq<(usize, EncryptedShare)>| lists_shares(s, m)
}

/// Only one sequence lists a map by increasing key.
pub proof fn lemma_lists_shares_unique(
    s1: Seq<(usize, EncryptedShare)>,
    s2: Seq<(usize, EncryptedShare)>,
    m: Map<usize, EncryptedShare>,
)
    requires
        lists_shares(s1, m),
        lists_shares(s2, m),
    ensures
        s1 == s2,
{
    assert forall|i: int| 0 <= i < s1.len() && 0 <= i < s2.len() implies s1[i] == s2[i] by {
        lemma_lists_shares_prefix(s1, s2, m, i);
    }
    if s1.len() < s2.len() {
        let n = s1.len() as int;
        let k = s2[n].0;
        let j = choose|j: int| 0 <= j < s1.len() && #[trigger] s1[j].0 == k;
        lemma_lists_shares_prefix(s1, s2, m, j);
    } else if s2.len() < s1.len() {
        let n = s2.len() as int;
        let k = s1[n].0;
        let j = choose|j: int| 0 <= j < s2.len() && #[trigger] s2[j].0 == k;
        lemma_lists_shares_prefix(s1, s2, m, j);
    }
    assert(s1 =~= s2);
}

proof fn lemma_lists_shares_prefix(
    s1: Seq<(usize, EncryptedShare)>,
    s2: Seq<(usize, EncryptedShare)>,
    m: Map<usize, EncryptedShare>,
    i: int,
)
    requires
        lists_shares(s1, m),
        lists_shares(s2, m),
        0 <= i < s1.len(),
        0 <= i < s2.len(),
    ensures
        s1[i] == s2[i],
    decreases i,
{
    if i > 0 {
        lemma_lists_shares_prefix(s1, s2, m, i - 1);
    }
    let a = s1[i].0;
    let b = s2[i].0;
    if a < b {
        let j = choose|j: int| 0 <= j < s2.len() && #[trigger] s2[j].0 == a;
        if j >= i {
            if j > i {
                assert(s2[i].0 < s2[j].0);
            }
        } else {
            lemma_lists_shares_prefix(s1, s2, m, j);
            assert(s1[j].0 < s1[i].0);
        }
    } else if b < a {
        let j = choose|j: int| 0 <= j < s1.len() && #[trigger] s1[j].0 == b;
        if j >= i {
            if j > i {
                assert(s1[i].0 < s1[j].0);
            }
        } else {
            lemma_lists_shares_prefix(s1, s2, m, j);
            assert(s2[j].0 < s2[i].0);
        }
    }
    assert(s1[i].0 == s2[i].0);
}

impl WireCodec for BatchEncryptedShares {
    /// The ephemeral key, the proof, the number of entries and the entries by
    /// increasing key.
    open spec fn encoding(&self) -> Seq<u8> {
        let s = sorted_shares(self.shares@);
        self.u.encoding() + self.pok.encoding() + u64_le(s.len() as u64) + entries_encoding(s)
    }

    /// The map is finite, and the ephemeral key, the proof and every share
    /// read back.
    open spec fn encodable(&self) -> bool {
        let s = sorted_shares(self.shares@);
        &&& self.u.encodable()
        &&& self.pok.encodable()
        &&& lists_shares(s, self.shares@)
        &&& s.len() <= usize::MAX
        &&& forall|i: int| 0 <= i < s.len() ==> (#[trigger] s[i]).1.encodable()
    }

    fn encode(&self, out: &mut Vec<u8>) {
        encode_batch(self, out);
    }

    fn decode(bytes: &[u8], pos: usize) -> (r: Option<(BatchEncryptedShares, usize)>) {
        decode_batch(bytes, pos)
    }
}

/// Maps keyed by `usize` meet the ordering laws that the map's
/// specification asks of its keys.
proof fn lemma_usize_keys_ordered()
    ensures
        vstd::std_specs::btree::key_obeys_cmp_spec::<usize>(),
{
    broadcast use vstd::std_specs::btree::group_btree_axioms, vstd::laws_cmp::group_laws_cmp;
}

/// An increasing sequence of `usize` keys increases strictly.
proof fn lemma_increasing_keys(ks: Seq<usize>)
    requires
        vstd::std_specs::btree::increasing_seq(ks),
    ensures
        forall|i: int, j: int| 0 <= i < j < ks.len() ==> ks[i] < ks[j],
{
    broadcast use vstd::std_specs::btree::group_btree_axioms, vstd::laws_cmp::group_laws_cmp;
    assert forall|i: int, j: int| 0 <= i < j < ks.len() implies ks[i] < ks[j] by {
        assert(ks[i].cmp_spec(&ks[j]) is Less);
    }
}

/// The entries that iteration over a map yields list the map by increasing key.
proof fn lemma_iter_lists_shares(m: &BTreeMap<usize, EncryptedShare>, s: Seq<(usize, EncryptedShare)>)
    requires
        s.len() == vstd::std_specs::btree::spec_btree_map_iter(m).remaining().len(),
        forall|q: int| 0 <= q < s.len() ==> #[trigger] s[q] == (
            *vstd::std_specs::btree::spec_btree_map_iter(m).remaining()[q].0,
            *vstd::std_specs::btree::spec_btree_map_iter(m).remaining()[q].1,
        ),
        forall|i: int, j: int| 0 <= i < j < s.len() ==> s[i].0 < s[j].0,
    ensures
        lists_shares(s, m@),
{
    broadcast use vstd::std_specs::btree::group_btree_axioms;
    let v = vstd::std_specs::btree::spec_btree_map_iter(m).remaining();
    assert forall|i: int| 0 <= i < s.len() implies m@.contains_key(#[trigger] s[i].0) && m@[s[i].0]
        == s[i].1 by {
        assert(m@.contains_key(*v[i].0));
    }
    assert forall|k: usize| m@.contains_key(k) implies exists|i: int|
        0 <= i < s.len() && #[trigger] s[i].0 == k by {
        assert(v.contains((&k, &m@[k])));
        let i = choose|i: int| 0 <= i < v.len() && v[i] == (&k, &m@[k]);
        assert(s[i].0 == k);
    }
}

/// Appends the encoding of a batch.
fn encode_batch(b: &BatchEncryptedShares, out: &mut Vec<u8>)
    ensures
        final(out)@ == old(out)@ + b.encoding(),
        b.encodable(),
{
    let ghost start = out@;
    b.u.encode(out);
    b.pok.encode(out);
    let mut entries: Vec<(usize, EncryptedShare)> = Vec::new();
    proof {
        lemma_usize_keys_ordered();
    }
    let iter = b.shares.iter();
    let ghost v = iter.remaining();
    assert(v == vstd::std_specs::btree::spec_btree_map_iter(&b.shares).remaining());
    proof {
        lemma_increasing_keys(v.map_values(|kv: (&usize, &EncryptedShare)| *kv.0));
    }
    for kv in it: iter
        invariant
            entries@.len() == it.index(),
            forall|q: int| 0 <= q < it.index() ==> #[trigger] entries@[q] == (*it.seq()[q].0, *it.seq()[q].1),
    {
        entries.push((*kv.0, *kv.1));
    }
    let ghost s = entries@;
    proof {
        assert(s.len() == v.len());
        assert forall|q: int| 0 <= q < s.len() implies #[trigger] s[q] == (*v[q].0, *v[q].1) by {}
        assert forall|i: int, j: int| 0 <= i < j < s.len() implies s[i].0 < s[j].0 by {
            assert(v.map_values(|kv: (&usize, &EncryptedShare)| *kv.0)[i] == s[i].0);
            assert(v.map_values(|kv: (&usize, &EncryptedShare)| *kv.0)[j] == s[j].0);
        }
        lemma_iter_lists_shares(&b.shares, s);
        lemma_lists_shares_unique(s, sorted_shares(b.shares@), b.shares@);
    }
    push_u64(out, entries.len() as u64);
    let ghost mid = out@;
    let mut i: usize = 0;
    while i < entries.len()
        invariant
            i <= entries@.len(),
            out@ == mid + entries_encoding(entries@.subrange(0, i as int)),
            forall|q: int| 0 <= q < i ==> (#[trigger] entries@[q]).1.encodable(),
        decreases entries@.len() - i,
    {
        entries[i].0.encode(out);
        entries[i].1.encode(out);
        proof {
            let t = entries@.subrange(0, i + 1);
            assert(t.drop_last() =~= entries@.subrange(0, i as int));
            assert(out@ =~= mid + entries_encoding(t));
        }
        i = i + 1;
    }
    assert(entries@.subrange(0, entries@.len() as int) =~= entries@);
    assert(out@ =~= start + b.encoding());
    assert(sorted_shares(b.shares@) == entries@);
}

/// The entries up to `j` encode as those up to `i` followed by those from `i`.
proof fn lemma_entries_split(s: Seq<(usize, EncryptedShare)>, i: int, j: int)
    requires
        0 <= i <= j <= s.len(),
    ensures
        entries_encoding(s.subrange(0, j)) == entries_encoding(s.subrange(0, i)) + entries_encoding(s.subrange(i, j)),
    decreases j - i,
{
    if j == i {
        assert(s.subrange(i, j) =~= Seq::<(usize, EncryptedShare)>::empty());
        assert(entries_encoding(s.subrange(0, i)) + Seq::<u8>::empty() =~= entries_encoding(s.subrange(0, i)));
    } else {
        lemma_entries_split(s, i, j - 1);
        assert(s.subrange(0, j).drop_last() =~= s.subrange(0, j - 1));
        assert(s.subrange(i, j).drop_last() =~= s.subrange(i, j - 1));
        assert(entries_encoding(s.subrange(0, j)) =~= entries_encoding(s.subrange(0, i)) + entries_encoding(
            s.subrange(i, j),
        ));
    }
}

/// From entry `i` on, the encoding starts with entry `i`'s key and share.
proof fn lemma_entries_front(s: Seq<(usize, EncryptedShare)>, i: int)
    requires
        0 <= i < s.len(),
    ensures
        entries_encoding(s) == entries_encoding(s.subrange(0, i)) + (s[i].0.encoding() + (s[i].1.encoding()
            + entries_encoding(s.subrange(i + 1, s.len() as int)))),
{
    lemma_entries_split(s, i + 1, s.len() as int);
    lemma_entries_split(s, i, i + 1);
    assert(s.subrange(0, s.len() as int) =~= s);
    let one = s.subrange(i, i + 1);
    assert(one.drop_last() =~= Seq::<(usize, EncryptedShare)>::empty());
    assert(entries_encoding(Seq::<(usize, EncryptedShare)>::empty()) == Seq::<u8>::empty());
    assert(entries_encoding(one.drop_last()) == Seq::<u8>::empty());
    assert(one.last() == s[i]);
    assert(entries_encoding(one) =~= s[i].0.encoding() + s[i].1.encoding());
    assert(entries_encoding(s) =~= entries_encoding(s.subrange(0, i)) + (s[i].0.encoding() + (s[i].1.encoding()
        + entries_encoding(s.subrange(i + 1, s.len() as int)))));
}

/// Decodes a batch at `pos`; the keys must increase strictly.
fn decode_batch(bytes: &[u8], pos: usize) -> (r: Option<(BatchEncryptedShares, usize)>)
    ensures
        r matches Some((b, end)) ==> pos <= end <= bytes@.len() && bytes@.subrange(
            pos as int,
            end as int,
        ) == b.encoding() && b.encodable(),
        forall|c: BatchEncryptedShares|
            c.encodable() && #[trigger] holds_at(bytes@, pos as int, c.encoding()) ==> (r matches Some((w, end)) && w.encoding()
                == c.encoding()),
{
    proof {
        vstd::bytes::lemma_auto_spec_u64_to_from_le_bytes();
        assert forall|c: BatchEncryptedShares| c.encodable() && #[trigger] holds_at(bytes@, pos as int, c.encoding()) implies (c.u.encodable() && holds_at(bytes@, pos as int, c.u.encoding())) && holds_at(
            bytes@,
            pos + c.u.encoding().len(),
            c.pok.encoding() + (u64_le(sorted_shares(c.shares@).len() as u64) + entries_encoding(
                sorted_shares(c.shares@),
            )),
        ) by {
            let sc = sorted_shares(c.shares@);
            assert(c.encoding() =~= c.u.encoding() + (c.pok.encoding() + (u64_le(sc.len() as u64) + entries_encoding(sc))));
            lemma_holds_split(
                bytes@,
                pos as int,
                c.u.encoding(),
                c.pok.encoding() + (u64_le(sc.len() as u64) + entries_encoding(sc)),
            );
        }
    }
    let (u, p0) = match Point::decode(bytes, pos) {
        Some(x) => x,
        None => {
            return None;
        },
    };
    proof {
        assert forall|c: BatchEncryptedShares| c.encodable() && #[trigger] holds_at(bytes@, pos as int, c.encoding()) implies p0 == pos
            + c.u.encoding().len() && u.encoding() == c.u.encoding() && (c.pok.encodable() && holds_at(bytes@, p0 as int, c.pok.encoding()))
            && holds_at(
            bytes@,
            p0 + c.pok.encoding().len(),
            u64_le(sorted_shares(c.shares@).len() as u64) + entries_encoding(sorted_shares(c.shares@)),
        ) by {
            let sc = sorted_shares(c.shares@);
            assert((c.u.encodable() && holds_at(bytes@, pos as int, c.u.encoding())));
            lemma_holds_split(bytes@, p0 as int, c.pok.encoding(), u64_le(sc.len() as u64) + entries_encoding(sc));
        }
    }
    let (pok, p1) = match SchnorrDLogProof::decode(bytes, p0) {
        Some(x) => x,
        None => {
            return None;
        },
    };
    proof {
        assert forall|c: BatchEncryptedShares| c.encodable() && #[trigger] holds_at(bytes@, pos as int, c.encoding()) implies p1 == p0
            + c.pok.encoding().len() && pok.encoding() == c.pok.encoding() && ((sorted_shares(c.shares@).len() as usize).encodable() && holds_at(bytes@, p1 as int, (sorted_shares(c.shares@).len() as usize).encoding())) && holds_at(bytes@, p1 + 8, entries_encoding(sorted_shares(c.shares@))) by {
            let sc = sorted_shares(c.shares@);
            assert((c.pok.encodable() && holds_at(bytes@, p0 as int, c.pok.encoding())));
            assert((sc.len() as usize) as u64 == sc.len() as u64);
            assert(u64_le(sc.len() as u64).len() == 8);
            lemma_holds_split(bytes@, p1 as int, u64_le(sc.len() as u64), entries_encoding(sc));
        }
    }
    let (n, p2) = match usize::decode(bytes, p1) {
        Some(x) => x,
        None => {
            return None;
        },
    };
    proof {
        assert forall|c: BatchEncryptedShares| c.encodable() && #[trigger] holds_at(bytes@, pos as int, c.encoding()) implies n
            == sorted_shares(c.shares@).len() && p2 == p1 + 8 by {
            let sc = sorted_shares(c.shares@);
            assert(((sc.len() as usize).encodable() && holds_at(bytes@, p1 as int, (sc.len() as usize).encoding())));
            assert(vstd::bytes::spec_u64_from_le_bytes(u64_le(n as u64)) == n as u64);
            assert(vstd::bytes::spec_u64_from_le_bytes(u64_le((sc.len() as usize) as u64)) == (sc.len() as usize) as u64);
        }
    }
    let mut shares: BTreeMap<usize, EncryptedShare> = BTreeMap::new();
    let ghost mut s: Seq<(usize, EncryptedShare)> = Seq::empty();
    let mut cur = p2;
    let mut last: usize = 0;
    let mut i: usize = 0;
    while i < n
        invariant
            i <= n,
            pos <= p0 <= p1 <= p2 <= cur <= bytes@.len(),
            s.len() == i,
            lists_shares(s, shares@),
            forall|q: int| 0 <= q < i ==> (#[trigger] s[q]).1.encodable(),
            i > 0 ==> s.last().0 == last,
            bytes@.subrange(p2 as int, cur as int) == entries_encoding(s),
            forall|c: BatchEncryptedShares|
                c.encodable() && #[trigger] holds_at(bytes@, pos as int, c.encoding()) ==> {
                    &&& u.encoding() == c.u.encoding()
                    &&& pok.encoding() == c.pok.encoding()
                    &&& n == sorted_shares(c.shares@).len()
                    &&& holds_at(bytes@, p2 as int, entries_encoding(sorted_shares(c.shares@)))
                    &&& entries_encoding(s) == entries_encoding(sorted_shares(c.shares@).subrange(0, i as int))
                    &&& forall|j: int| 0 <= j < i ==> s[j].0 == sorted_shares(c.shares@)[j].0
                },
        decreases n - i,
    {
        proof {
            vstd::bytes::lemma_auto_spec_u64_to_from_le_bytes();
            assert forall|c: BatchEncryptedShares| c.encodable() && #[trigger] holds_at(bytes@, pos as int, c.encoding()) implies ((sorted_shares(c.shares@)[i as int].0).encodable() && holds_at(bytes@, cur as int, (sorted_shares(c.shares@)[i as int].0).encoding())) && holds_at(
                bytes@,
                cur + 8,
                sorted_shares(c.shares@)[i as int].1.encoding() + entries_encoding(
                    sorted_shares(c.shares@).subrange(i + 1, sorted_shares(c.shares@).len() as int),
                ),
            ) by {
                let sc = sorted_shares(c.shares@);
                let tail = entries_encoding(sc.subrange(i + 1, sc.len() as int));
                lemma_entries_front(sc, i as int);
                let pre = entries_encoding(sc.subrange(0, i as int));
                lemma_holds_split(bytes@, p2 as int, pre, sc[i as int].0.encoding() + (sc[i as int].1.encoding() + tail));
                assert(p2 + pre.len() == cur);
                assert(u64_le(sc[i as int].0 as u64).len() == 8);
                lemma_holds_split(bytes@, cur as int, sc[i as int].0.encoding(), sc[i as int].1.encoding() + tail);
            }
        }
        let (k, q0) = match usize::decode(bytes, cur) {
            Some(x) => x,
            None => {
                return None;
            },
        };
        proof {
            assert forall|c: BatchEncryptedShares| c.encodable() && #[trigger] holds_at(bytes@, pos as int, c.encoding()) implies k
                == sorted_shares(c.shares@)[i as int].0 && q0 == cur + 8 && ((sorted_shares(c.shares@)[i as int].1).encodable() && holds_at(bytes@, q0 as int, (sorted_shares(c.shares@)[i as int].1).encoding())) && holds_at(
                bytes@,
                q0 + sorted_shares(c.shares@)[i as int].1.encoding().len(),
                entries_encoding(sorted_shares(c.shares@).subrange(i + 1, sorted_shares(c.shares@).len() as int)),
            ) by {
                let sc = sorted_shares(c.shares@);
                assert((sc[i as int].0.encodable() && holds_at(bytes@, cur as int, sc[i as int].0.encoding())));
                assert(vstd::bytes::spec_u64_from_le_bytes(u64_le(k as u64)) == k as u64);
                assert(vstd::bytes::spec_u64_from_le_bytes(u64_le(sc[i as int].0 as u64)) == sc[i as int].0 as u64);
                assert(sc[i as int].1.encodable());
                lemma_holds_split(
                    bytes@,
                    q0 as int,
                    sc[i as int].1.encoding(),
                    entries_encoding(sc.subrange(i + 1, sc.len() as int)),
                );
            }
        }
        let (v, q1) = match EncryptedShare::decode(bytes, q0) {
            Some(x) => x,
            None => {
                return None;
            },
        };
        proof {
            assert forall|c: BatchEncryptedShares| c.encodable() && #[trigger] holds_at(bytes@, pos as int, c.encoding()) implies q1 == q0
                + sorted_shares(c.shares@)[i as int].1.encoding().len() && v.encoding() == sorted_shares(
                c.shares@,
            )[i as int].1.encoding() by {
                assert(((sorted_shares(c.shares@)[i as int].1).encodable() && holds_at(bytes@, q0 as int, (sorted_shares(c.shares@)[i as int].1).encoding())));
            }
        }
        if i > 0 && k <= last {
            proof {
                assert forall|c: BatchEncryptedShares| c.encodable() && #[trigger] holds_at(bytes@, pos as int, c.encoding()) implies false by {
                    let sc = sorted_shares(c.shares@);
                    assert(s[i - 1].0 == sc[i - 1].0);
                    assert(sc[i - 1].0 < sc[i as int].0);
                }
            }
            return None;
        }
        let ghost old_s = s;
        let ghost old_m = shares@;
        let ghost old_cur = cur;
        shares.insert(k, v);
        proof {
            s = s.push((k, v));
            assert(s.drop_last() =~= old_s);
            assert(bytes@.subrange(p2 as int, q1 as int) =~= bytes@.subrange(p2 as int, old_cur as int)
                + bytes@.subrange(old_cur as int, q0 as int) + bytes@.subrange(q0 as int, q1 as int));
            assert(!old_m.contains_key(k)) by {
                if old_m.contains_key(k) {
                    let j = choose|j: int| 0 <= j < old_s.len() && #[trigger] old_s[j].0 == k;
                    assert(old_s[j].0 <= last) by {
                        if j < old_s.len() - 1 {
                            assert(old_s[j].0 < old_s[old_s.len() - 1].0);
                        }
                    }
                }
            }
            assert forall|kk: usize| shares@.contains_key(kk) implies exists|j: int|
                0 <= j < s.len() && #[trigger] s[j].0 == kk by {
                if kk == k {
                    assert(s[s.len() - 1].0 == kk);
                } else {
                    let j = choose|j: int| 0 <= j < old_s.len() && #[trigger] old_s[j].0 == kk;
                    assert(s[j].0 == kk);
                }
            }
            assert forall|a: int, c: int| 0 <= a < c < s.len() implies s[a].0 < s[c].0 by {
                if c == s.len() - 1 && a < c {
                    if a < old_s.len() - 1 {
                        assert(old_s[a].0 < old_s[old_s.len() - 1].0);
                    }
                }
            }
            assert forall|c: BatchEncryptedShares| c.encodable() && #[trigger] holds_at(bytes@, pos as int, c.encoding()) implies entries_encoding(s)
                == entries_encoding(sorted_shares(c.shares@).subrange(0, i + 1)) && forall|j: int|
                0 <= j < i + 1 ==> s[j].0 == sorted_shares(c.shares@)[j].0 by {
                let sc = sorted_shares(c.shares@);
                assert(sc.subrange(0, i + 1).drop_last() =~= sc.subrange(0, i as int));
                assert(entries_encoding(s) == entries_encoding(old_s) + k.encoding() + v.encoding());
            }
        }
        cur = q1;
        last = k;
        i = i + 1;
    }
    let b = BatchEncryptedShares { u, pok, shares };
    proof {
        assert(bytes@.subrange(pos as int, cur as int) =~= bytes@.subrange(pos as int, p0 as int)
            + bytes@.subrange(p0 as int, p1 as int) + bytes@.subrange(p1 as int, p2 as int)
            + bytes@.subrange(p2 as int, cur as int));
        assert(lists_shares(s, b.shares@));
        lemma_lists_shares_unique(s, sorted_shares(b.shares@), b.shares@);
        assert forall|c: BatchEncryptedShares| c.encodable() && #[trigger] holds_at(bytes@, pos as int, c.encoding()) implies b.encoding()
            == c.encoding() by {
            let sc = sorted_shares(c.shares@);
            assert(sc.subrange(0, n as int) =~= sc);
        }
    }
    Some((b, cur))
}

} // verus!
