//! Byte strings of scalars and group elements laid end to end, as they are fed
//! to hashes and written to the wire.

use crate::bytes::push_bytes;
use crate::group::Point;
use crate::pedersen::PedersenCommitment;
use crate::scalar::Scalar;
use vstd::prelude::*;

verus! {

/// The canonical encodings of the scalars, concatenated.
pub open spec fn scalars_bytes(ss: Seq<Scalar>) -> Seq<u8>
    decreases ss.len(),
{
    if ss.len() == 0 {
        Seq::empty()
    } else {
        scalars_bytes(ss.drop_last()) + ss.last().spec_encoding()
    }
}

/// The compressed encodings of the elements, concatenated.
pub open spec fn points_bytes(ps: Seq<Point>) -> Seq<u8>
    decreases ps.len(),
{
    if ps.len() == 0 {
        Seq::empty()
    } else {
        points_bytes(ps.drop_last()) + ps.last().enc()
    }
}

/// The compressed encodings of the committed elements, concatenated.
pub open spec fn commitments_bytes(cs: Seq<PedersenCommitment>) -> Seq<u8>
    decreases cs.len(),
{
    if cs.len() == 0 {
        Seq::empty()
    } else {
        commitments_bytes(cs.drop_last()) + crate::group::compressed_multiple(cs.last()@)
    }
}

/// Appends the encodings of `ss`.
pub fn push_scalars(out: &mut Vec<u8>, ss: &[Scalar])
    ensures
        final(out)@ == old(out)@ + scalars_bytes(ss@),
{
    let mut i: usize = 0;
    while i < ss.len()
        invariant
            i <= ss@.len(),
            out@ == old(out)@ + scalars_bytes(ss@.subrange(0, i as int)),
        decreases ss@.len() - i,
    {
        let b = ss[i].to_bytes();
        let ghost o = out@;
        push_bytes(out, &b);
        proof {
            let s = ss@.subrange(0, i + 1);
            assert(s.drop_last() =~= ss@.subrange(0, i as int));
            assert(out@ =~= old(out)@ + scalars_bytes(s));
        }
        i = i + 1;
    }
    assert(ss@.subrange(0, ss@.len() as int) =~= ss@);
}

/// Appends the encodings of `ps`.
pub fn push_points(out: &mut Vec<u8>, ps: &[Point])
    ensures
        final(out)@ == old(out)@ + points_bytes(ps@),
{
    let mut i: usize = 0;
    while i < ps.len()
        invariant
            i <= ps@.len(),
            out@ == old(out)@ + points_bytes(ps@.subrange(0, i as int)),
        decreases ps@.len() - i,
    {
        let b = ps[i].to_bytes();
        push_bytes(out, &b);
        proof {
            let s = ps@.subrange(0, i + 1);
            assert(s.drop_last() =~= ps@.subrange(0, i as int));
            assert(out@ =~= old(out)@ + points_bytes(s));
        }
        i = i + 1;
    }
    assert(ps@.subrange(0, ps@.len() as int) =~= ps@);
}

/// Appends the encodings of the committed elements.
pub fn push_commitments(out: &mut Vec<u8>, cs: &[PedersenCommitment])
    ensures
        final(out)@ == old(out)@ + commitments_bytes(cs@),
{
    let mut i: usize = 0;
    while i < cs.len()
        invariant
            i <= cs@.len(),
            out@ == old(out)@ + commitments_bytes(cs@.subrange(0, i as int)),
        decreases cs@.len() - i,
    {
        let b = cs[i].compress();
        push_bytes(out, &b);
        proof {
            let s = cs@.subrange(0, i + 1);
            assert(s.drop_last() =~= cs@.subrange(0, i as int));
            assert(out@ =~= old(out)@ + commitments_bytes(s));
        }
        i = i + 1;
    }
    assert(cs@.subrange(0, cs@.len() as int) =~= cs@);
}

} // verus!
