//! Pedersen commitments `g^m h^r`.

use crate::arith::{group_order, lemma_modl_add, lemma_modl_bound, lemma_modl_mul, modl};
use crate::group::{compressed_multiple, h_dlog, Point};
use crate::scalar::Scalar;
use vstd::prelude::*;

verus! {

/// The discrete logarithm of `g^m h^r`.
pub open spec fn com_dlog(m: int, r: int) -> int {
    modl(m + r * h_dlog())
}

/// A Pedersen commitment, a group element.
#[derive(Clone, Copy)]
pub struct PedersenCommitment {
    point: Point,
}

impl View for PedersenCommitment {
    type V = int;

    /// The discrete logarithm of the committed element.
    closed spec fn view(&self) -> int {
        self.point@
    }
}

/// `g^m h^r` as an element.
pub fn commit_point(message: &Scalar, blinding: &Scalar) -> (r: Point)
    ensures
        r@ == com_dlog(message@, blinding@),
{
    let gm = Point::basepoint_mul(message);
    let h = Point::pedersen_h();
    let hr = h.mul(blinding);
    let r = gm.add(&hr);
    proof {
        lemma_modl_add(message@, hr@);
        lemma_modl_add(message@, h@ * blinding@);
        assert(h@ * blinding@ == blinding@ * h_dlog()) by (nonlinear_arith)
            requires
                h@ == h_dlog(),
        ;
    }
    r
}

/// `g^{m_i} h^{r_i}` for each pair, with one precomputed table for `h`.
pub fn commit_points(ms: &[Scalar], rs: &[Scalar]) -> (r: Vec<Point>)
    requires
        ms@.len() == rs@.len(),
    ensures
        r@.len() == ms@.len(),
        forall|i: int| 0 <= i < ms@.len() ==> (#[trigger] r@[i])@ == com_dlog(ms@[i]@, rs@[i]@),
{
    let h = Point::pedersen_h();
    let hrs = h.mul_many(rs);
    let mut out: Vec<Point> = Vec::new();
    let mut i: usize = 0;
    while i < ms.len()
        invariant
            i <= ms@.len(),
            ms@.len() == rs@.len(),
            hrs@.len() == rs@.len(),
            h@ == h_dlog(),
            forall|q: int| 0 <= q < rs@.len() ==> (#[trigger] hrs@[q])@ == modl(h@ * rs@[q]@),
            out@.len() == i,
            forall|q: int| 0 <= q < i ==> (#[trigger] out@[q])@ == com_dlog(ms@[q]@, rs@[q]@),
        decreases ms@.len() - i,
    {
        let gm = Point::basepoint_mul(&ms[i]);
        let c = gm.add(&hrs[i]);
        proof {
            let m = ms@[i as int]@;
            let b = rs@[i as int]@;
            lemma_modl_add(m, hrs@[i as int]@);
            lemma_modl_add(m, h@ * b);
            assert(h@ * b == b * h_dlog()) by (nonlinear_arith)
                requires
                    h@ == h_dlog(),
            ;
        }
        out.push(c);
        i = i + 1;
    }
    out
}

/// The commitment `g^s h^r` to each opened pair `Some((s, r))`, with one
/// precomputed table for `h`; where nothing opened, the neutral commitment
/// to `(0, 0)` holds the place.
pub fn commit_opened(pairs: &[Option<(Scalar, Scalar)>]) -> (r: Vec<Point>)
    ensures
        r@.len() == pairs@.len(),
        forall|q: int|
            0 <= q < pairs@.len() ==> (#[trigger] pairs@[q] matches Some(p) ==> r@[q]@ == com_dlog(p.0@, p.1@)),
{
    let mut ms: Vec<Scalar> = Vec::new();
    let mut rs: Vec<Scalar> = Vec::new();
    let mut i: usize = 0;
    while i < pairs.len()
        invariant
            i <= pairs@.len(),
            ms@.len() == i,
            rs@.len() == i,
            forall|q: int|
                0 <= q < i ==> (#[trigger] pairs@[q] matches Some(p) ==> ms@[q] == p.0 && rs@[q] == p.1),
        decreases pairs@.len() - i,
    {
        match pairs[i] {
            Some((m, b)) => {
                ms.push(m);
                rs.push(b);
            },
            None => {
                ms.push(Scalar::zero());
                rs.push(Scalar::zero());
            },
        }
        i = i + 1;
    }
    commit_points(ms.as_slice(), rs.as_slice())
}

impl PedersenCommitment {
    /// The commitments `g^{m_i} h^{r_i}`, with one precomputed table for `h`.
    pub fn new_many(ms: &[Scalar], rs: &[Scalar]) -> (r: Vec<PedersenCommitment>)
        requires
            ms@.len() == rs@.len(),
        ensures
            r@.len() == ms@.len(),
            forall|i: int| 0 <= i < ms@.len() ==> (#[trigger] r@[i])@ == com_dlog(ms@[i]@, rs@[i]@),
    {
        let ps = commit_points(ms, rs);
        let mut out: Vec<PedersenCommitment> = Vec::new();
        let mut i: usize = 0;
        while i < ps.len()
            invariant
                i <= ps@.len(),
                ps@.len() == ms@.len(),
                forall|q: int| 0 <= q < ms@.len() ==> (#[trigger] ps@[q])@ == com_dlog(ms@[q]@, rs@[q]@),
                out@.len() == i,
                forall|q: int| 0 <= q < i ==> (#[trigger] out@[q])@ == com_dlog(ms@[q]@, rs@[q]@),
            decreases ps@.len() - i,
        {
            out.push(PedersenCommitment { point: ps[i] });
            i = i + 1;
        }
        out
    }

    /// The commitment `g^m h^r` to `m` with blinding `r`.
    pub fn new(message: Scalar, blinding: Scalar) -> (r: PedersenCommitment)
        ensures
            r@ == com_dlog(message@, blinding@),
    {
        PedersenCommitment { point: commit_point(&message, &blinding) }
    }

    /// The commitment given by an element.
    pub fn from_point(point: Point) -> (r: PedersenCommitment)
        ensures
            r@ == point@,
    {
        PedersenCommitment { point }
    }

    /// The committed element.
    pub fn point(&self) -> (r: &Point)
        ensures
            r@ == self@,
    {
        &self.point
    }

    /// The compressed encoding of the committed element.
    pub fn compress(&self) -> (r: [u8; 32])
        ensures
            r@ == compressed_multiple(self@),
    {
        self.point.to_bytes()
    }

    /// Whether `(message, blinding)` opens the commitment.
    pub fn verify_opening(&self, message: Scalar, blinding: Scalar) -> (r: bool)
        ensures
            r == (self@ == com_dlog(message@, blinding@)),
    {
        self.matches_opening(message, blinding)
    }

    /// Whether `(value, blinding)` opens the commitment.
    pub fn matches_opening(&self, value: Scalar, blinding: Scalar) -> (r: bool)
        ensures
            r == (self@ == com_dlog(value@, blinding@)),
    {
        let other = commit_point(&value, &blinding);
        self.point.equals(&other)
    }

    /// Equality of the committed elements.
    pub fn equals(&self, other: &PedersenCommitment) -> (r: bool)
        ensures
            r == (self@ == other@),
    {
        self.point.equals(&other.point)
    }
}

impl PartialEq for PedersenCommitment {
    fn eq(&self, other: &PedersenCommitment) -> (r: bool) {
        self.equals(other)
    }
}

impl vstd::std_specs::cmp::PartialEqSpecImpl for PedersenCommitment {
    open spec fn obeys_eq_spec() -> bool {
        true
    }

    open spec fn eq_spec(&self, other: &PedersenCommitment) -> bool {
        self@ == other@
    }
}

/// Commitments add up: the product of two commitments commits to the sums of
/// the messages and of the blindings.
pub proof fn lemma_pedersen_homomorphic(m1: int, r1: int, m2: int, r2: int)
    ensures
        modl(com_dlog(m1, r1) + com_dlog(m2, r2)) == com_dlog(m1 + m2, r1 + r2),
{
    lemma_modl_add(m1 + r1 * h_dlog(), com_dlog(m2, r2));
    lemma_modl_add(m1 + r1 * h_dlog(), m2 + r2 * h_dlog());
    assert(m1 + r1 * h_dlog() + (m2 + r2 * h_dlog()) == (m1 + m2) + (r1 + r2) * h_dlog())
        by (nonlinear_arith);
}

} // verus!
