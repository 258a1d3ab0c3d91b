//! Scalars of the Ristretto255 group: integers modulo the group order, held in
//! their canonical 32-byte little-endian encoding. The arithmetic itself is done
//! by `curve25519_dalek`.

use crate::arith::{group_order, le_value, lemma_le_value_nonneg, lemma_modl_bound, modl};
use curve25519_dalek::scalar::Scalar as DalekScalar;
use vstd::prelude::*;

verus! {

/// Addition modulo the group order by `curve25519_dalek`: both operands are
/// read as little-endian integers reduced modulo the order, the sum comes back
/// in canonical form.
#[verifier::external_body]
fn dalek_scalar_add(a: &[u8; 32], b: &[u8; 32]) -> (r: [u8; 32])
    ensures
        le_value(r@) == modl(le_value(a@) + le_value(b@)),
{
    (DalekScalar::from_bytes_mod_order(*a) + DalekScalar::from_bytes_mod_order(*b)).to_bytes()
}

/// Subtraction modulo the group order by `curve25519_dalek`.
#[verifier::external_body]
fn dalek_scalar_sub(a: &[u8; 32], b: &[u8; 32]) -> (r: [u8; 32])
    ensures
        le_value(r@) == modl(le_value(a@) - le_value(b@)),
{
    (DalekScalar::from_bytes_mod_order(*a) - DalekScalar::from_bytes_mod_order(*b)).to_bytes()
}

/// Multiplication modulo the group order by `curve25519_dalek`.
#[verifier::external_body]
fn dalek_scalar_mul(a: &[u8; 32], b: &[u8; 32]) -> (r: [u8; 32])
    ensures
        le_value(r@) == modl(le_value(a@) * le_value(b@)),
{
    (DalekScalar::from_bytes_mod_order(*a) * DalekScalar::from_bytes_mod_order(*b)).to_bytes()
}

/// `Scalar::from_bytes_mod_order_wide`: a 512-bit little-endian integer reduced
/// modulo the group order.
#[verifier::external_body]
fn dalek_scalar_from_wide(w: &[u8; 64]) -> (r: [u8; 32])
    ensures
        le_value(r@) == modl(le_value(w@)),
{
    DalekScalar::from_bytes_mod_order_wide(w).to_bytes()
}

/// `Scalar::from_canonical_bytes`: accepts exactly the encodings of integers
/// below the group order.
#[verifier::external_body]
fn dalek_scalar_is_canonical(b: &[u8; 32]) -> (r: bool)
    ensures
        r == (le_value(b@) < group_order()),
{
    bool::from(DalekScalar::from_canonical_bytes(*b).is_some())
}

/// `Scalar::random` over the operating system's generator. What comes out is
/// chance; it is always a canonical encoding.
#[verifier::external_body]
fn dalek_scalar_random() -> (r: [u8; 32])
    ensures
        le_value(r@) < group_order(),
{
    DalekScalar::random(&mut rand::rngs::OsRng).to_bytes()
}

/// `Scalar::from(u64)`: the integer itself, which lies below the group order.
#[verifier::external_body]
fn dalek_scalar_from_u64(x: u64) -> (r: [u8; 32])
    ensures
        le_value(r@) == x,
{
    DalekScalar::from(x).to_bytes()
}

/// Equality of two scalars as `curve25519_dalek` decides it: the integers
/// agree modulo the group order.
#[verifier::external_body]
fn dalek_scalar_eq(a: &[u8; 32], b: &[u8; 32]) -> (r: bool)
    ensures
        r == (modl(le_value(a@) as int) == modl(le_value(b@))),
{
    DalekScalar::from_bytes_mod_order(*a) == DalekScalar::from_bytes_mod_order(*b)
}

/// An integer modulo the group order, kept in canonical form.
#[derive(Clone, Copy, Debug, Eq)]
pub struct Scalar {
    bytes: [u8; 32],
}

impl View for Scalar {
    type V = int;

    closed spec fn view(&self) -> int {
        le_value(self.bytes@)
    }
}

impl Scalar {
    /// Canonical form: the encoded integer lies below the group order.
    #[verifier::type_invariant]
    closed spec fn inv(self) -> bool {
        le_value(self.bytes@) < group_order()
    }

    fn from_canonical(bytes: [u8; 32]) -> (r: Scalar)
        requires
            le_value(bytes@) < group_order(),
        ensures
            r@ == le_value(bytes@),
    {
        Scalar { bytes }
    }

    /// The scalar zero.
    pub fn zero() -> (r: Scalar)
        ensures
            r@ == 0,
    {
        Scalar::from_u64(0)
    }

    /// The scalar one.
    pub fn one() -> (r: Scalar)
        ensures
            r@ == 1,
    {
        Scalar::from_u64(1)
    }

    /// A small integer as a scalar.
    pub fn from_u64(x: u64) -> (r: Scalar)
        ensures
            r@ == x,
    {
        let b = dalek_scalar_from_u64(x);
        Scalar { bytes: b }
    }

    /// The sum modulo the group order.
    pub fn add(&self, other: &Scalar) -> (r: Scalar)
        ensures
            r@ == modl(self@ + other@),
    {
        let b = dalek_scalar_add(&self.bytes, &other.bytes);
        proof {
            lemma_modl_bound(self@ + other@);
        }
        Scalar { bytes: b }
    }

    /// The difference modulo the group order.
    pub fn sub(&self, other: &Scalar) -> (r: Scalar)
        ensures
            r@ == modl(self@ - other@),
    {
        let b = dalek_scalar_sub(&self.bytes, &other.bytes);
        proof {
            lemma_modl_bound(self@ - other@);
        }
        Scalar { bytes: b }
    }

    /// The product modulo the group order.
    pub fn mul(&self, other: &Scalar) -> (r: Scalar)
        ensures
            r@ == modl(self@ * other@),
    {
        let b = dalek_scalar_mul(&self.bytes, &other.bytes);
        proof {
            lemma_modl_bound(self@ * other@);
        }
        Scalar { bytes: b }
    }

    /// The additive inverse modulo the group order.
    pub fn neg(&self) -> (r: Scalar)
        ensures
            r@ == modl(-self@),
    {
        let z = Scalar::zero();
        z.sub(self)
    }

    /// A 512-bit little-endian integer reduced modulo the group order.
    pub fn from_bytes_mod_order_wide(w: &[u8; 64]) -> (r: Scalar)
        ensures
            r@ == modl(le_value(w@)),
    {
        let b = dalek_scalar_from_wide(w);
        proof {
            lemma_modl_bound(le_value(w@));
        }
        Scalar { bytes: b }
    }

    /// Decodes a canonical encoding, `None` for any other 32 bytes.
    pub fn from_canonical_bytes(b: [u8; 32]) -> (r: Option<Scalar>)
        ensures
            r is Some <==> le_value(b@) < group_order(),
            r matches Some(s) ==> s@ == le_value(b@) && s.spec_encoding() == b@,
    {
        if dalek_scalar_is_canonical(&b) {
            Some(Scalar { bytes: b })
        } else {
            None
        }
    }

    /// The canonical little-endian encoding, as a spec value.
    pub closed spec fn spec_encoding(&self) -> Seq<u8> {
        self.bytes@
    }

    /// A scalar is determined by its value: two scalars of the same value are
    /// the same scalar.
    pub proof fn lemma_value_determines(a: Scalar, b: Scalar)
        requires
            a@ == b@,
        ensures
            a == b,
    {
        lemma_le_value_injective(a.bytes@, b.bytes@);
        assert(a.bytes =~= b.bytes);
    }

    /// The canonical little-endian encoding.
    pub fn to_bytes(&self) -> (r: [u8; 32])
        ensures
            r@ == self.spec_encoding(),
            le_value(r@) == self@,
            0 <= self@ < group_order(),
    {
        proof {
            use_type_invariant(self);
            lemma_le_value_nonneg(self.bytes@);
        }
        self.bytes
    }

    /// A scalar drawn from the operating system's generator.
    pub fn random() -> (r: Scalar)
        ensures
            0 <= r@ < group_order(),
    {
        let b = dalek_scalar_random();
        proof {
            lemma_le_value_nonneg(b@);
        }
        Scalar { bytes: b }
    }

    /// Equality of the two integers.
    pub fn equals(&self, other: &Scalar) -> (r: bool)
        ensures
            r == (self@ == other@),
    {
        proof {
            use_type_invariant(self);
            use_type_invariant(other);
            lemma_le_value_nonneg(self.bytes@);
            lemma_le_value_nonneg(other.bytes@);
            lemma_modl_bound(self@);
            lemma_modl_bound(other@);
        }
        dalek_scalar_eq(&self.bytes, &other.bytes)
    }
}

impl PartialEq for Scalar {
    fn eq(&self, other: &Scalar) -> (r: bool) {
        self.equals(other)
    }
}

impl vstd::std_specs::cmp::PartialEqSpecImpl for Scalar {
    open spec fn obeys_eq_spec() -> bool {
        true
    }

    open spec fn eq_spec(&self, other: &Scalar) -> bool {
        self@ == other@
    }
}

/// Byte strings of one length with the same little-endian value are equal.
proof fn lemma_le_value_injective(a: Seq<u8>, b: Seq<u8>)
    requires
        a.len() == b.len(),
        le_value(a) == le_value(b),
    ensures
        a == b,
    decreases a.len(),
{
    if a.len() > 0 {
        let ta = a.subrange(1, a.len() as int);
        let tb = b.subrange(1, b.len() as int);
        lemma_le_value_nonneg(ta);
        lemma_le_value_nonneg(tb);
        let x = le_value(ta);
        let y = le_value(tb);
        assert(a[0] as int + 256 * x == b[0] as int + 256 * y);
        assert(a[0] == b[0] && x == y) by (nonlinear_arith)
            requires
                a[0] as int + 256 * x == b[0] as int + 256 * y,
                0 <= a[0] < 256,
                0 <= b[0] < 256,
                0 <= x,
                0 <= y,
        ;
        lemma_le_value_injective(ta, tb);
        assert forall|i: int| 0 <= i < a.len() implies a[i] == b[i] by {
            if i > 0 {
                assert(a[i] == ta[i - 1]);
                assert(b[i] == tb[i - 1]);
            }
        }
        assert(a =~= b);
    }
}

} // verus!
