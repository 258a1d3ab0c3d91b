//! Fiat-Shamir transcripts over `merlin`. A transcript is determined by what
//! was fed into it: its initial label, the labelled messages appended, and the
//! challenges drawn. Challenges are a function of that history.

use crate::arith::{le_value, modl};
use crate::group::{ristretto_from_uniform, Point};
use crate::scalar::Scalar;
use merlin::Transcript;
use vstd::prelude::*;
use vstd::string::StringSliceAdditionalSpecFns;

verus! {

#[verifier::external_type_specification]
#[verifier::external_body]
pub struct ExTranscript(Transcript);

/// One step of a transcript's history: `(kind, label, data)`, where kind 0 is
/// the initial label, 1 an appended message and 2 a drawn 64-byte challenge.
pub type TranscriptOp = (u8, Seq<u8>, Seq<u8>);

/// What a transcript holds: the sequence of operations that made it.
pub uninterp spec fn transcript_contents(t: Transcript) -> Seq<TranscriptOp>;

/// The 64 challenge bytes that `challenge_bytes` draws from a transcript with
/// the given history under the given label.
pub uninterp spec fn merlin_challenge(history: Seq<TranscriptOp>, label: Seq<u8>) -> Seq<u8>;

pub open spec fn op_init(label: Seq<u8>) -> TranscriptOp {
    (0u8, label, Seq::empty())
}

pub open spec fn op_append(label: Seq<u8>, data: Seq<u8>) -> TranscriptOp {
    (1u8, label, data)
}

pub open spec fn op_challenge(label: Seq<u8>) -> TranscriptOp {
    (2u8, label, Seq::empty())
}

/// `Transcript::new`.
#[verifier::external_body]
fn merlin_new(label: &'static str) -> (t: Transcript)
    ensures
        transcript_contents(t) == seq![op_init(label.spec_bytes())],
{
    Transcript::new(label.as_bytes())
}

/// `Transcript::append_message`, which panics on a message longer than
/// `u32::MAX` bytes (its length is absorbed as four bytes).
#[verifier::external_body]
fn merlin_append_message(t: &mut Transcript, label: &'static str, message: &[u8])
    requires
        message@.len() <= u32::MAX,
    ensures
        transcript_contents(*final(t)) == transcript_contents(*old(t)).push(
            op_append(label.spec_bytes(), message@),
        ),
{
    t.append_message(label.as_bytes(), message)
}

/// `Transcript::append_u64`, which appends the 8 little-endian bytes of `x`.
#[verifier::external_body]
fn merlin_append_u64(t: &mut Transcript, label: &'static str, x: u64)
    ensures
        transcript_contents(*final(t)) == transcript_contents(*old(t)).push(
            op_append(label.spec_bytes(), vstd::bytes::spec_u64_to_le_bytes(x)),
        ),
{
    t.append_u64(label.as_bytes(), x)
}

/// `Transcript::challenge_bytes` into a 64-byte buffer.
#[verifier::external_body]
fn merlin_challenge_bytes(t: &mut Transcript, label: &'static str) -> (r: [u8; 64])
    ensures
        r@ == merlin_challenge(transcript_contents(*old(t)), label.spec_bytes()),
        transcript_contents(*final(t)) == transcript_contents(*old(t)).push(
            op_challenge(label.spec_bytes()),
        ),
{
    let mut buf = [0u8; 64];
    t.challenge_bytes(label.as_bytes(), &mut buf);
    buf
}

/// A fresh transcript under a domain label.
pub fn new_transcript(label: &'static str) -> (t: Transcript)
    ensures
        transcript_contents(t) == seq![op_init(label.spec_bytes())],
{
    merlin_new(label)
}

/// Appends a labelled message of at most `u32::MAX` bytes.
pub fn append_message(t: &mut Transcript, label: &'static str, message: &[u8])
    requires
        message@.len() <= u32::MAX,
    ensures
        transcript_contents(*final(t)) == transcript_contents(*old(t)).push(
            op_append(label.spec_bytes(), message@),
        ),
{
    merlin_append_message(t, label, message)
}

/// Appends a labelled 64-bit integer.
pub fn append_u64(t: &mut Transcript, label: &'static str, x: u64)
    ensures
        transcript_contents(*final(t)) == transcript_contents(*old(t)).push(
            op_append(label.spec_bytes(), vstd::bytes::spec_u64_to_le_bytes(x)),
        ),
{
    merlin_append_u64(t, label, x)
}

/// Appends a scalar in its canonical encoding.
pub fn append_scalar(t: &mut Transcript, label: &'static str, s: &Scalar)
    ensures
        transcript_contents(*final(t)) == transcript_contents(*old(t)).push(
            op_append(label.spec_bytes(), s.spec_encoding()),
        ),
{
    let b = s.to_bytes();
    merlin_append_message(t, label, &b)
}

/// Appends an element in its compressed encoding.
pub fn append_point(t: &mut Transcript, label: &'static str, p: &Point)
    ensures
        transcript_contents(*final(t)) == transcript_contents(*old(t)).push(
            op_append(label.spec_bytes(), p.enc()),
        ),
{
    let b = p.to_bytes();
    merlin_append_message(t, label, &b)
}

/// A challenge scalar: 64 challenge bytes reduced modulo the group order.
pub fn challenge_scalar(t: &mut Transcript, label: &'static str) -> (r: Scalar)
    ensures
        r@ == modl(le_value(merlin_challenge(transcript_contents(*old(t)), label.spec_bytes()))),
        transcript_contents(*final(t)) == transcript_contents(*old(t)).push(
            op_challenge(label.spec_bytes()),
        ),
{
    let buf = merlin_challenge_bytes(t, label);
    Scalar::from_bytes_mod_order_wide(&buf)
}

/// A challenge element: 64 challenge bytes mapped into the group.
pub fn challenge_point(t: &mut Transcript, label: &'static str) -> (r: Point)
    ensures
        r.enc() == ristretto_from_uniform(
            merlin_challenge(transcript_contents(*old(t)), label.spec_bytes()),
        ),
        transcript_contents(*final(t)) == transcript_contents(*old(t)).push(
            op_challenge(label.spec_bytes()),
        ),
{
    let buf = merlin_challenge_bytes(t, label);
    Point::from_uniform_bytes(&buf)
}

/// The value of a challenge scalar drawn under `label` from history `h`.
pub open spec fn challenge_value(h: Seq<TranscriptOp>, label: Seq<u8>) -> int {
    modl(le_value(merlin_challenge(h, label)))
}

/// The history after `count` rounds of "append the index under `il`, draw a
/// challenge under `cl`", starting from `h`.
pub open spec fn indexed_history(h: Seq<TranscriptOp>, il: Seq<u8>, cl: Seq<u8>, count: int) -> Seq<
    TranscriptOp,
>
    decreases count,
{
    if count <= 0 {
        h
    } else {
        indexed_history(h, il, cl, count - 1).push(
            op_append(il, vstd::bytes::spec_u64_to_le_bytes((count - 1) as u64)),
        ).push(op_challenge(cl))
    }
}

/// The challenge scalars drawn in those rounds.
pub open spec fn indexed_values(h: Seq<TranscriptOp>, il: Seq<u8>, cl: Seq<u8>, count: int) -> Seq<
    int,
>
    decreases count,
{
    if count <= 0 {
        Seq::empty()
    } else {
        indexed_values(h, il, cl, count - 1).push(
            challenge_value(
                indexed_history(h, il, cl, count - 1).push(
                    op_append(il, vstd::bytes::spec_u64_to_le_bytes((count - 1) as u64)),
                ),
                cl,
            ),
        )
    }
}

/// Draws `count` challenge scalars, each after appending its index.
pub fn indexed_challenges(
    t: &mut Transcript,
    index_label: &'static str,
    challenge_label: &'static str,
    count: usize,
) -> (r: Vec<Scalar>)
    ensures
        crate::group::svals(r@) == indexed_values(
            transcript_contents(*old(t)),
            index_label.spec_bytes(),
            challenge_label.spec_bytes(),
            count as int,
        ),
        transcript_contents(*final(t)) == indexed_history(
            transcript_contents(*old(t)),
            index_label.spec_bytes(),
            challenge_label.spec_bytes(),
            count as int,
        ),
        r@.len() == count,
{
    let ghost h0 = transcript_contents(*t);
    let mut out: Vec<Scalar> = Vec::new();
    let mut i: usize = 0;
    while i < count
        invariant
            i <= count,
            h0 == transcript_contents(*old(t)),
            crate::group::svals(out@) == indexed_values(
                h0,
                index_label.spec_bytes(),
                challenge_label.spec_bytes(),
                i as int,
            ),
            transcript_contents(*t) == indexed_history(
                h0,
                index_label.spec_bytes(),
                challenge_label.spec_bytes(),
                i as int,
            ),
            out@.len() == i,
        decreases count - i,
    {
        let ib = vstd::bytes::u64_to_le_bytes(i as u64);
        merlin_append_message(t, index_label, ib.as_slice());
        let c = challenge_scalar(t, challenge_label);
        let ghost o = out@;
        out.push(c);
        proof {
            assert(crate::group::svals(out@) =~= crate::group::svals(o).push(c@));
        }
        i = i + 1;
    }
    out
}

} // verus!
