//! Canonical byte encodings: fixed-length codecs for elements and scalars, the
//! encoding of protocol values, the bytes that signatures cover, and the
//! framing `payload_len || payload || signature` of signed messages.

pub use crate::error::WireError;
use crate::arith::{group_order, le_value};
use crate::bytes::{push_bytes, push_u64, u64_le};
use crate::group::{is_point, Point};
use crate::pedersen::PedersenCommitment;
use crate::scalar::Scalar;
use crate::sig::{ed25519_verify_strict, Signature, VerifyingKey};
use vstd::prelude::*;

verus! {

/// The compressed encoding of an element.
pub fn point_to_bytes(p: &Point) -> (r: [u8; 32])
    ensures
        r@ == p.enc(),
{
    p.to_bytes()
}

/// Decodes an element; `NotOnCurve` when the bytes encode none.
pub fn point_from_bytes(bytes: &[u8; 32]) -> (r: Result<Point, WireError>)
    ensures
        r is Ok <==> is_point(bytes@),
        r matches Ok(p) ==> p.enc() == bytes@,
        r matches Err(e) ==> e == WireError::NotOnCurve,
{
    match Point::from_bytes(bytes) {
        Some(p) => Ok(p),
        None => Err(WireError::NotOnCurve),
    }
}

/// The canonical encoding of a scalar.
pub fn scalar_to_bytes(s: &Scalar) -> (r: [u8; 32])
    ensures
        r@ == s.spec_encoding(),
        le_value(r@) == s@,
{
    s.to_bytes()
}

/// Decodes a canonical scalar; `NonCanonicalScalar` for any other bytes.
pub fn scalar_from_bytes(bytes: &[u8; 32]) -> (r: Result<Scalar, WireError>)
    ensures
        r is Ok <==> le_value(bytes@) < group_order(),
        r matches Ok(s) ==> s@ == le_value(bytes@) && s.spec_encoding() == bytes@,
        r matches Err(e) ==> e == WireError::NonCanonicalScalar,
{
    match Scalar::from_canonical_bytes(*bytes) {
        Some(s) => Ok(s),
        None => Err(WireError::NonCanonicalScalar),
    }
}

/// The bytes a signature covers: the domain's length, the domain, the payload.
pub open spec fn signed_bytes(domain: Seq<u8>, payload: Seq<u8>) -> Seq<u8> {
    u64_le(domain.len() as u64) + domain + payload
}

/// Signed bytes determine their domain and payload: the bytes signed for two
/// messages are the same only when both the domains and the payloads are.
/// So a message of one type (one domain) is never signed as the same bytes
/// as a message of another type.
pub proof fn lemma_signed_bytes_separate(d1: Seq<u8>, p1: Seq<u8>, d2: Seq<u8>, p2: Seq<u8>)
    requires
        d1.len() <= u64::MAX,
        d2.len() <= u64::MAX,
    ensures
        signed_bytes(d1, p1) == signed_bytes(d2, p2) <==> (d1 == d2 && p1 == p2),
{
    let s1 = signed_bytes(d1, p1);
    let s2 = signed_bytes(d2, p2);
    if s1 == s2 {
        vstd::bytes::lemma_auto_spec_u64_to_from_le_bytes();
        assert(u64_le(d1.len() as u64).len() == 8);
        assert(u64_le(d2.len() as u64).len() == 8);
        assert(s1.subrange(0, 8) =~= u64_le(d1.len() as u64));
        assert(s2.subrange(0, 8) =~= u64_le(d2.len() as u64));
        assert(d1.len() == d2.len());
        let l = d1.len() as int;
        assert(s1.subrange(8, 8 + l) =~= d1);
        assert(s2.subrange(8, 8 + l) =~= d2);
        assert(s1.subrange(8 + l, s1.len() as int) =~= p1);
        assert(s2.subrange(8 + l, s2.len() as int) =~= p2);
    }
}

/// The bytes signed over a message whose payload is already encoded.
pub fn signing_bytes_of_payload(domain: &[u8], payload: &[u8]) -> (r: Vec<u8>)
    ensures
        r@ == signed_bytes(domain@, payload@),
{
    let mut out: Vec<u8> = Vec::new();
    push_u64(&mut out, domain.len() as u64);
    push_bytes(&mut out, domain);
    push_bytes(&mut out, payload);
    out
}

/// The bytes signed over a message: `domain` separates the message types, so a
/// signature on one type is never valid on another. `fields` is the encoding
/// of the signed fields only.
pub fn signing_bytes(domain: &[u8], fields: &[u8]) -> (r: Vec<u8>)
    ensures
        r@ == signed_bytes(domain@, fields@),
{
    signing_bytes_of_payload(domain, fields)
}

/// A signed message on the wire.
pub open spec fn sealed(payload: Seq<u8>, sig: Seq<u8>) -> Seq<u8> {
    u64_le(payload.len() as u64) + payload + sig
}

/// Frames a payload and its signature: `payload_len || payload || signature`.
pub fn seal(payload: &[u8], signature: &Signature) -> (r: Vec<u8>)
    ensures
        r@ == sealed(payload@, signature.bytes@),
{
    let mut out: Vec<u8> = Vec::new();
    push_u64(&mut out, payload.len() as u64);
    push_bytes(&mut out, payload);
    push_bytes(&mut out, &signature.bytes);
    out
}

/// The little-endian length that opens a frame.
pub open spec fn frame_len(w: Seq<u8>) -> int {
    vstd::bytes::spec_u64_from_le_bytes(w.subrange(0, 8)) as int
}

/// The bytes are one frame: the stated payload length and 64 signature bytes
/// make up the whole.
pub open spec fn frame_ok(w: Seq<u8>) -> bool {
    w.len() >= 8 && 8 + frame_len(w) + 64 == w.len()
}

/// Copies `bytes[from..to]`.
fn copy_range(bytes: &[u8], from: usize, to: usize) -> (r: Vec<u8>)
    requires
        from <= to <= bytes@.len(),
    ensures
        r@ == bytes@.subrange(from as int, to as int),
{
    let mut out: Vec<u8> = Vec::new();
    let mut i: usize = from;
    while i < to
        invariant
            from <= i <= to,
            to <= bytes@.len(),
            out@ == bytes@.subrange(from as int, i as int),
        decreases to - i,
    {
        out.push(bytes[i]);
        i = i + 1;
        assert(out@ =~= bytes@.subrange(from as int, i as int));
    }
    out
}

/// The 64-bit little-endian integer at `pos`.
fn read_u64(bytes: &[u8], pos: usize) -> (r: Option<(u64, usize)>)
    ensures
        r is Some <==> pos + 8 <= bytes@.len(),
        r matches Some((x, end)) ==> end == pos + 8 && bytes@.subrange(pos as int, end as int)
            == u64_le(x) && x == vstd::bytes::spec_u64_from_le_bytes(
            bytes@.subrange(pos as int, end as int),
        ),
{
    if bytes.len() < 8 || pos > bytes.len() - 8 {
        return None;
    }
    let s = vstd::slice::slice_subrange(bytes, pos, pos + 8);
    let x = vstd::bytes::u64_from_le_bytes(s);
    proof {
        vstd::bytes::lemma_auto_spec_u64_to_from_le_bytes();
    }
    Some((x, pos + 8))
}

/// The 32 bytes at `pos`.
fn read_32(bytes: &[u8], pos: usize) -> (r: Option<([u8; 32], usize)>)
    ensures
        r is Some <==> pos + 32 <= bytes@.len(),
        r matches Some((a, end)) ==> end == pos + 32 && bytes@.subrange(pos as int, end as int)
            == a@,
{
    if bytes.len() < 32 || pos > bytes.len() - 32 {
        return None;
    }
    let mut a = [0u8; 32];
    let mut i: usize = 0;
    while i < 32
        invariant
            i <= 32,
            pos + 32 <= bytes@.len(),
            bytes@.len() <= usize::MAX,
            a@.len() == 32,
            forall|q: int| 0 <= q < i ==> a@[q] == bytes@[pos + q],
        decreases 32 - i,
    {
        a.set(i, bytes[pos + i]);
        i = i + 1;
    }
    assert(bytes@.subrange(pos as int, pos + 32) =~= a@);
    Some((a, pos + 32))
}

/// Splits a signed message into its payload and signature without decoding
/// either.
pub fn split(wire: &[u8]) -> (r: Result<(Vec<u8>, Signature), WireError>)
    ensures
        r is Ok <==> frame_ok(wire@),
        r matches Ok((p, s)) ==> wire@ == sealed(p@, s.bytes@),
        r matches Err(e) ==> e == WireError::MalformedMessage,
{
    let (len, _) = match read_u64(wire, 0) {
        Some(x) => x,
        None => {
            return Err(WireError::MalformedMessage);
        },
    };
    if len > (wire.len() - 8) as u64 || wire.len() - 8 - (len as usize) != 64 {
        return Err(WireError::MalformedMessage);
    }
    let end = 8 + len as usize;
    let payload = copy_range(wire, 8, end);
    let (sig, _) = match read_64(wire, end) {
        Some(x) => x,
        None => {
            return Err(WireError::MalformedMessage);
        },
    };
    proof {
        vstd::bytes::lemma_auto_spec_u64_to_from_le_bytes();
        assert(wire@ =~= sealed(payload@, sig@));
    }
    Ok((payload, Signature { bytes: sig }))
}

/// The 64 bytes at `pos`.
fn read_64(bytes: &[u8], pos: usize) -> (r: Option<([u8; 64], usize)>)
    ensures
        r is Some <==> pos + 64 <= bytes@.len(),
        r matches Some((a, end)) ==> end == pos + 64 && bytes@.subrange(pos as int, end as int)
            == a@,
{
    if bytes.len() < 64 || pos > bytes.len() - 64 {
        return None;
    }
    let mut a = [0u8; 64];
    let mut i: usize = 0;
    while i < 64
        invariant
            i <= 64,
            pos + 64 <= bytes@.len(),
            bytes@.len() <= usize::MAX,
            a@.len() == 64,
            forall|q: int| 0 <= q < i ==> a@[q] == bytes@[pos + q],
        decreases 64 - i,
    {
        a.set(i, bytes[pos + i]);
        i = i + 1;
    }
    assert(bytes@.subrange(pos as int, pos + 64) =~= a@);
    Some((a, pos + 64))
}

/// Framing is undone by splitting: a sealed message is one frame, and only
/// its own payload and signature seal to it.
pub proof fn lemma_split_seal(payload: Seq<u8>, sig: Seq<u8>, payload2: Seq<u8>, sig2: Seq<u8>)
    requires
        sig.len() == 64,
        sig2.len() == 64,
        payload.len() + 72 <= u64::MAX,
        payload2.len() + 72 <= u64::MAX,
    ensures
        frame_ok(sealed(payload, sig)),
        sealed(payload2, sig2) == sealed(payload, sig) ==> payload2 == payload && sig2 == sig,
{
    vstd::bytes::lemma_auto_spec_u64_to_from_le_bytes();
    let w = sealed(payload, sig);
    assert(w.subrange(0, 8) =~= u64_le(payload.len() as u64));
    if sealed(payload2, sig2) == w {
        let w2 = sealed(payload2, sig2);
        assert(w2.subrange(0, 8) =~= u64_le(payload2.len() as u64));
        assert(payload2.len() == payload.len());
        assert(payload2 =~= w.subrange(8, 8 + payload.len() as int));
        assert(payload =~= w.subrange(8, 8 + payload.len() as int));
        assert(sig2 =~= w.subrange(8 + payload.len() as int, w.len() as int));
        assert(sig =~= w.subrange(8 + payload.len() as int, w.len() as int));
    }
}

/// Checks a signature over the payload bytes as received.
pub fn verify_payload(domain: &[u8], payload: &[u8], signature: &Signature, pk: &VerifyingKey) -> (r:
    Result<(), WireError>)
    ensures
        r is Ok <==> ed25519_verify_strict(
            pk.bytes@,
            signed_bytes(domain@, payload@),
            signature.bytes@,
        ),
        r matches Err(e) ==> e == WireError::BadSignature,
{
    let msg = signing_bytes_of_payload(domain, payload);
    if pk.verify_strict(msg.as_slice(), signature) {
        Ok(())
    } else {
        Err(WireError::BadSignature)
    }
}

/// `bytes` holds `e` at `pos`.
pub open spec fn holds_at(bytes: Seq<u8>, pos: int, e: Seq<u8>) -> bool {
    &&& 0 <= pos
    &&& pos + e.len() <= bytes.len()
    &&& bytes.subrange(pos, pos + e.len()) == e
}

/// `bytes` holds, at `pos`, the encoding of `v`, a value that reads back.
pub open spec fn encoded_at<T: WireCodec>(bytes: Seq<u8>, pos: int, v: T) -> bool {
    &&& v.encodable()
    &&& holds_at(bytes, pos, v.encoding())
}

/// What holds two byte strings one after the other holds each of them.
pub proof fn lemma_holds_split(bytes: Seq<u8>, pos: int, a: Seq<u8>, b: Seq<u8>)
    requires
        holds_at(bytes, pos, a + b),
    ensures
        holds_at(bytes, pos, a),
        holds_at(bytes, pos + a.len(), b),
{
    let w = bytes.subrange(pos, pos + a.len() + b.len());
    assert(w == a + b);
    assert(bytes.subrange(pos, pos + a.len()) =~= w.subrange(0, a.len() as int));
    assert(w.subrange(0, a.len() as int) =~= a);
    assert(bytes.subrange(pos + a.len(), pos + a.len() + b.len()) =~= w.subrange(
        a.len() as int,
        (a.len() + b.len()) as int,
    ));
    assert(w.subrange(a.len() as int, (a.len() + b.len()) as int) =~= b);
}

/// A value with a canonical byte encoding.
pub trait WireCodec: Sized {
    /// The encoding of the value.
    spec fn encoding(&self) -> Seq<u8>;

    /// The value's encoding reads back: its elements are group elements, its
    /// scalars are canonical and its lengths fit.
    spec fn encodable(&self) -> bool;

    /// Appends the encoding.
    fn encode(&self, out: &mut Vec<u8>)
        ensures
            final(out)@ == old(out)@ + self.encoding(),
            self.encodable(),
    ;

    /// Decodes a value at `pos`; the bytes consumed are its encoding, and
    /// where `pos` starts the encoding of a value that reads back, a value
    /// with that encoding comes back.
    fn decode(bytes: &[u8], pos: usize) -> (r: Option<(Self, usize)>)
        ensures
            r matches Some((v, end)) ==> pos <= end <= bytes@.len() && bytes@.subrange(
                pos as int,
                end as int,
            ) == v.encoding() && v.encodable(),
            forall|v: Self|
                #![trigger holds_at(bytes@, pos as int, v.encoding())]
                v.encodable() && holds_at(bytes@, pos as int, v.encoding()) ==> (r matches Some((w, end))
                    && w.encoding() == v.encoding()),
    ;
}

/// The encoding of a value, as a fresh vector.
pub fn to_bytes<T: WireCodec>(v: &T) -> (r: Vec<u8>)
    ensures
        r@ == v.encoding(),
{
    let mut out: Vec<u8> = Vec::new();
    v.encode(&mut out);
    assert(out@ =~= v.encoding());
    out
}

/// Decodes a value that makes up all of `bytes`; the bytes of a value that
/// reads back give a value with that encoding.
pub fn from_bytes<T: WireCodec>(bytes: &[u8]) -> (r: Option<T>)
    ensures
        r matches Some(v) ==> v.encoding() == bytes@ && v.encodable(),
        forall|v: T|
            #[trigger] encoded_at(bytes@, 0, v) && v.encoding().len() == bytes@.len() ==> (r matches Some(w)
                && w.encoding() == v.encoding()),
{
    match T::decode(bytes, 0) {
        Some((v, end)) => {
            if end == bytes.len() {
                assert(bytes@.subrange(0, bytes@.len() as int) =~= bytes@);
                Some(v)
            } else {
                None
            }
        },
        None => None,
    }
}

/// Splits a wire message and decodes its payload without authenticating it;
/// the payload comes back too, so the caller can look up the claimed
/// sender's key and then verify. A sealed value that reads back opens to a
/// value with its encoding and to its signature.
pub fn open_unverified<T: WireCodec>(wire: &[u8]) -> (r: Result<(T, Vec<u8>, Signature), WireError>)
    ensures
        !frame_ok(wire@) ==> r matches Err(WireError::MalformedMessage),
        r matches Ok((v, p, s)) ==> wire@ == sealed(p@, s.bytes@) && v.encoding() == p@ && v.encodable(),
        r matches Err(e) ==> e == WireError::MalformedMessage,
        forall|v: T, sig: Seq<u8>|
            #![trigger sealed(v.encoding(), sig)]
            v.encodable() && sig.len() == 64 && wire@ == sealed(v.encoding(), sig) ==> (r matches Ok((w, p, s))
                && w.encoding() == v.encoding() && s.bytes@ == sig),
{
    let wire_len = wire.len();
    proof {
        vstd::bytes::lemma_auto_spec_u64_to_from_le_bytes();
        assert forall|v: T, sig: Seq<u8>| v.encodable() && sig.len() == 64 && wire@ == #[trigger] sealed(v.encoding(), sig)
            implies frame_ok(wire@) by {
            assert(u64_le(v.encoding().len() as u64).len() == 8);
            assert(wire@.len() == wire_len);
            lemma_split_seal(v.encoding(), sig, v.encoding(), sig);
        }
    }
    let (payload, signature) = match split(wire) {
        Ok(x) => x,
        Err(e) => {
            return Err(e);
        },
    };
    proof {
        assert forall|v: T, sig: Seq<u8>| v.encodable() && sig.len() == 64 && wire@ == #[trigger] sealed(v.encoding(), sig)
            implies encoded_at(payload@, 0, v) && v.encoding().len() == payload@.len() && signature.bytes@ == sig by {
            assert(u64_le(v.encoding().len() as u64).len() == 8);
            assert(wire@.len() == wire_len);
            lemma_split_seal(v.encoding(), sig, payload@, signature.bytes@);
            assert(payload@.subrange(0, payload@.len() as int) =~= payload@);
        }
    }
    match from_bytes::<T>(payload.as_slice()) {
        Some(fields) => Ok((fields, payload, signature)),
        None => Err(WireError::MalformedMessage),
    }
}

impl WireCodec for u8 {
    open spec fn encoding(&self) -> Seq<u8> {
        seq![*self]
    }

    open spec fn encodable(&self) -> bool {
        true
    }

    fn encode(&self, out: &mut Vec<u8>) {
        out.push(*self);
    }

    fn decode(bytes: &[u8], pos: usize) -> (r: Option<(u8, usize)>) {
        if pos < bytes.len() {
            assert(bytes@.subrange(pos as int, pos + 1) =~= seq![bytes@[pos as int]]);
            let r = Some((bytes[pos], pos + 1));
            assert forall|v: u8| v.encodable() && #[trigger] holds_at(bytes@, pos as int, v.encoding()) implies (r matches Some((w, end))
                && w.encoding() == v.encoding()) by {
                assert(bytes@.subrange(pos as int, pos + 1)[0] == v);
            }
            r
        } else {
            None
        }
    }
}

impl WireCodec for usize {
    open spec fn encoding(&self) -> Seq<u8> {
        u64_le(*self as u64)
    }

    open spec fn encodable(&self) -> bool {
        true
    }

    fn encode(&self, out: &mut Vec<u8>) {
        push_u64(out, *self as u64);
    }

    fn decode(bytes: &[u8], pos: usize) -> (r: Option<(usize, usize)>) {
        proof {
            vstd::bytes::lemma_auto_spec_u64_to_from_le_bytes();
        }
        match read_u64(bytes, pos) {
            Some((x, end)) => {
                if x <= usize::MAX as u64 {
                    let v = x as usize;
                    assert(v as u64 == x);
                    assert(v.encoding() == u64_le(x));
                    assert(bytes@.subrange(pos as int, end as int) == v.encoding());
                    let r = Some((v, end));
                    assert forall|c: usize| c.encodable() && #[trigger] holds_at(bytes@, pos as int, c.encoding()) implies (r matches Some((w, e))
                        && w.encoding() == c.encoding()) by {
                        assert(u64_le(c as u64).len() == 8);
                        assert(vstd::bytes::spec_u64_from_le_bytes(u64_le(c as u64)) == c as u64);
                    }
                    r
                } else {
                    assert forall|c: usize| c.encodable() && #[trigger] holds_at(bytes@, pos as int, c.encoding()) implies false by {
                        assert(u64_le(c as u64).len() == 8);
                        assert(vstd::bytes::spec_u64_from_le_bytes(u64_le(c as u64)) == c as u64);
                    }
                    None
                }
            },
            None => {
                assert forall|c: usize| c.encodable() && #[trigger] holds_at(bytes@, pos as int, c.encoding()) implies false by {
                    assert(u64_le(c as u64).len() == 8);
                }
                None
            },
        }
    }
}

impl WireCodec for u16 {
    open spec fn encoding(&self) -> Seq<u8> {
        u64_le(*self as u64)
    }

    open spec fn encodable(&self) -> bool {
        true
    }

    fn encode(&self, out: &mut Vec<u8>) {
        push_u64(out, *self as u64);
    }

    fn decode(bytes: &[u8], pos: usize) -> (r: Option<(u16, usize)>) {
        proof {
            vstd::bytes::lemma_auto_spec_u64_to_from_le_bytes();
        }
        match read_u64(bytes, pos) {
            Some((x, end)) => {
                if x <= u16::MAX as u64 {
                    let r = Some((x as u16, end));
                    assert forall|c: u16| c.encodable() && #[trigger] holds_at(bytes@, pos as int, c.encoding()) implies (r matches Some((w, e))
                        && w.encoding() == c.encoding()) by {
                        assert(u64_le(c as u64).len() == 8);
                        assert(vstd::bytes::spec_u64_from_le_bytes(u64_le(c as u64)) == c as u64);
                    }
                    r
                } else {
                    assert forall|c: u16| c.encodable() && #[trigger] holds_at(bytes@, pos as int, c.encoding()) implies false by {
                        assert(u64_le(c as u64).len() == 8);
                        assert(vstd::bytes::spec_u64_from_le_bytes(u64_le(c as u64)) == c as u64);
                    }
                    None
                }
            },
            None => {
                assert forall|c: u16| c.encodable() && #[trigger] holds_at(bytes@, pos as int, c.encoding()) implies false by {
                    assert(u64_le(c as u64).len() == 8);
                }
                None
            },
        }
    }
}

impl WireCodec for Scalar {
    open spec fn encoding(&self) -> Seq<u8> {
        self.spec_encoding()
    }

    open spec fn encodable(&self) -> bool {
        &&& self.spec_encoding().len() == 32
        &&& le_value(self.spec_encoding()) < group_order()
    }

    fn encode(&self, out: &mut Vec<u8>) {
        let b = self.to_bytes();
        push_bytes(out, &b);
    }

    fn decode(bytes: &[u8], pos: usize) -> (r: Option<(Scalar, usize)>) {
        match read_32(bytes, pos) {
            Some((a, end)) => match Scalar::from_canonical_bytes(a) {
                Some(s) => Some((s, end)),
                None => None,
            },
            None => None,
        }
    }
}

impl WireCodec for Point {
    open spec fn encoding(&self) -> Seq<u8> {
        self.enc()
    }

    open spec fn encodable(&self) -> bool {
        &&& self.enc().len() == 32
        &&& is_point(self.enc())
    }

    fn encode(&self, out: &mut Vec<u8>) {
        let b = self.to_bytes();
        push_bytes(out, &b);
    }

    fn decode(bytes: &[u8], pos: usize) -> (r: Option<(Point, usize)>) {
        match read_32(bytes, pos) {
            Some((a, end)) => match Point::from_bytes(&a) {
                Some(p) => Some((p, end)),
                None => None,
            },
            None => None,
        }
    }
}

impl WireCodec for PedersenCommitment {
    open spec fn encoding(&self) -> Seq<u8> {
        crate::group::compressed_multiple(self@)
    }

    open spec fn encodable(&self) -> bool {
        &&& self.encoding().len() == 32
        &&& is_point(self.encoding())
    }

    fn encode(&self, out: &mut Vec<u8>) {
        let b = self.point().to_bytes();
        push_bytes(out, &b);
    }

    fn decode(bytes: &[u8], pos: usize) -> (r: Option<(PedersenCommitment, usize)>) {
        match read_32(bytes, pos) {
            Some((a, end)) => match Point::from_bytes(&a) {
                Some(p) => Some((PedersenCommitment::from_point(p), end)),
                None => None,
            },
            None => None,
        }
    }
}

/// The encodings of the items, concatenated.
pub open spec fn items_encoding<T: WireCodec>(s: Seq<T>) -> Seq<u8>
    decreases s.len(),
{
    if s.len() == 0 {
        Seq::empty()
    } else {
        items_encoding(s.drop_last()) + s.last().encoding()
    }
}

/// The items up to `j` encode as those up to `i` followed by those from `i`.
proof fn lemma_items_split<T: WireCodec>(s: Seq<T>, i: int, j: int)
    requires
        0 <= i <= j <= s.len(),
    ensures
        items_encoding(s.subrange(0, j)) == items_encoding(s.subrange(0, i)) + items_encoding(s.subrange(i, j)),
    decreases j - i,
{
    if j == i {
        assert(s.subrange(i, j) =~= Seq::<T>::empty());
        assert(items_encoding(s.subrange(0, i)) + Seq::<u8>::empty() =~= items_encoding(s.subrange(0, i)));
    } else {
        lemma_items_split(s, i, j - 1);
        assert(s.subrange(0, j).drop_last() =~= s.subrange(0, j - 1));
        assert(s.subrange(i, j).drop_last() =~= s.subrange(i, j - 1));
        assert(items_encoding(s.subrange(0, j)) =~= items_encoding(s.subrange(0, i)) + items_encoding(s.subrange(i, j)));
    }
}

/// From item `i` on, the encoding starts with item `i`'s.
proof fn lemma_items_front<T: WireCodec>(s: Seq<T>, i: int)
    requires
        0 <= i < s.len(),
    ensures
        items_encoding(s) == items_encoding(s.subrange(0, i)) + s[i].encoding() + items_encoding(
            s.subrange(i + 1, s.len() as int),
        ),
{
    lemma_items_split(s, i + 1, s.len() as int);
    lemma_items_split(s, i, i + 1);
    assert(s.subrange(0, s.len() as int) =~= s);
    let one = s.subrange(i, i + 1);
    assert(one.drop_last() =~= Seq::<T>::empty());
    assert(items_encoding(Seq::<T>::empty()) == Seq::<u8>::empty());
    assert(items_encoding(one.drop_last()) == Seq::<u8>::empty());
    assert(one.last() == s[i]);
    assert(items_encoding(one) =~= s[i].encoding());
    assert(items_encoding(s) =~= items_encoding(s.subrange(0, i)) + s[i].encoding() + items_encoding(
        s.subrange(i + 1, s.len() as int),
    ));
}

impl<T: WireCodec> WireCodec for Vec<T> {
    open spec fn encoding(&self) -> Seq<u8> {
        u64_le(self@.len() as u64) + items_encoding(self@)
    }

    open spec fn encodable(&self) -> bool {
        &&& self@.len() <= usize::MAX
        &&& forall|i: int| 0 <= i < self@.len() ==> (#[trigger] self@[i]).encodable()
    }

    fn encode(&self, out: &mut Vec<u8>) {
        push_u64(out, self.len() as u64);
        let ghost start = out@;
        let mut i: usize = 0;
        while i < self.len()
            invariant
                i <= self@.len(),
                out@ == start + items_encoding(self@.subrange(0, i as int)),
                forall|q: int| 0 <= q < i ==> (#[trigger] self@[q]).encodable(),
            decreases self@.len() - i,
        {
            self[i].encode(out);
            proof {
                let s = self@.subrange(0, i + 1);
                assert(s.drop_last() =~= self@.subrange(0, i as int));
                assert(out@ =~= start + items_encoding(s));
            }
            i = i + 1;
        }
        assert(self@.subrange(0, self@.len() as int) =~= self@);
    }

    fn decode(bytes: &[u8], pos: usize) -> (r: Option<(Vec<T>, usize)>) {
        proof {
            vstd::bytes::lemma_auto_spec_u64_to_from_le_bytes();
            assert forall|v: Vec<T>| v.encodable() && #[trigger] holds_at(bytes@, pos as int, v.encoding()) implies ((v@.len() as usize).encodable() && holds_at(bytes@, pos as int, (v@.len() as usize).encoding())) by {
                lemma_holds_split(bytes@, pos as int, u64_le(v@.len() as u64), items_encoding(v@));
                assert((v@.len() as usize) as u64 == v@.len() as u64);
            }
        }
        let (n, mut cur) = match usize::decode(bytes, pos) {
            Some(x) => x,
            None => {
                return None;
            },
        };
        let mut items: Vec<T> = Vec::new();
        let mut i: usize = 0;
        while i < n
            invariant
                i <= n,
                pos <= cur <= bytes@.len(),
                items@.len() == i,
                forall|q: int| 0 <= q < i ==> (#[trigger] items@[q]).encodable(),
                bytes@.subrange(pos as int, cur as int) == u64_le(n as u64) + items_encoding(items@),
                forall|v: Vec<T>|
                    v.encodable() && #[trigger] holds_at(bytes@, pos as int, v.encoding()) ==> v@.len() == n && items_encoding(items@)
                        == items_encoding(v@.subrange(0, i as int)),
            decreases n - i,
        {
            proof {
                assert forall|v: Vec<T>| v.encodable() && #[trigger] holds_at(bytes@, pos as int, v.encoding()) implies (v@[i as int].encodable() && holds_at(bytes@, cur as int, v@[i as int].encoding())) by {
                    lemma_items_front(v@, i as int);
                    let pre = u64_le(n as u64) + items_encoding(v@.subrange(0, i as int));
                    assert(v.encoding() =~= pre + (v@[i as int].encoding() + items_encoding(
                        v@.subrange(i + 1, v@.len() as int),
                    )));
                    lemma_holds_split(bytes@, pos as int, pre, v@[i as int].encoding() + items_encoding(
                        v@.subrange(i + 1, v@.len() as int),
                    ));
                    lemma_holds_split(bytes@, pos + pre.len(), v@[i as int].encoding(), items_encoding(
                        v@.subrange(i + 1, v@.len() as int),
                    ));
                    assert(pos + pre.len() == cur);
                }
            }
            let (v, end) = match T::decode(bytes, cur) {
                Some(x) => x,
                None => {
                    return None;
                },
            };
            let ghost old_items = items@;
            let ghost old_cur = cur;
            items.push(v);
            cur = end;
            proof {
                assert(items@.drop_last() =~= old_items);
                assert(bytes@.subrange(pos as int, cur as int) =~= bytes@.subrange(
                    pos as int,
                    old_cur as int,
                ) + bytes@.subrange(old_cur as int, cur as int));
                assert forall|c: Vec<T>| c.encodable() && #[trigger] holds_at(bytes@, pos as int, c.encoding()) implies c@.len() == n
                    && items_encoding(items@) == items_encoding(c@.subrange(0, i + 1)) by {
                    assert((c@[i as int].encodable() && holds_at(bytes@, old_cur as int, c@[i as int].encoding())));
                    assert(c@.subrange(0, i + 1).drop_last() =~= c@.subrange(0, i as int));
                }
            }
            i = i + 1;
        }
        let r = Some((items, cur));
        proof {
            assert forall|c: Vec<T>| c.encodable() && #[trigger] holds_at(bytes@, pos as int, c.encoding()) implies (r matches Some((w, e))
                && w.encoding() == c.encoding()) by {
                assert(c@.subrange(0, n as int) =~= c@);
            }
        }
        r
    }
}

} // verus!
