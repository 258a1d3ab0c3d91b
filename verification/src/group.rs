//! The Ristretto255 group. A group element is held in its canonical 32-byte
//! compressed encoding; its discrete logarithm to the base point is carried as
//! ghost state, so that every group operation is stated as arithmetic modulo
//! the group order. The curve arithmetic is done by `curve25519_dalek`.

use crate::arith::{group_order, le_value, lemma_modl_bound, modl};
use crate::scalar::Scalar;
use curve25519_dalek::ristretto::{CompressedRistretto, RistrettoBasepointTable, RistrettoPoint};
use curve25519_dalek::scalar::Scalar as DalekScalar;
use curve25519_dalek::traits::VartimeMultiscalarMul;
use vstd::prelude::*;
use vstd::string::StringSliceAdditionalSpecFns;

verus! {

/// The compressed encoding of the multiple `[k]B` of the Ristretto base point,
/// as `(RISTRETTO_BASEPOINT_TABLE * k).compress()` returns it.
pub uninterp spec fn compressed_multiple(k: int) -> Seq<u8>;

/// What `RistrettoPoint::hash_from_bytes::<Sha512>` returns on an input,
/// compressed.
pub uninterp spec fn hash_to_ristretto(input: Seq<u8>) -> Seq<u8>;

/// What `RistrettoPoint::from_uniform_bytes` returns on 64 bytes, compressed.
pub uninterp spec fn ristretto_from_uniform(input: Seq<u8>) -> Seq<u8>;

/// The 32 bytes encode a group element. Ristretto255 is cyclic of prime order
/// with the base point as generator, so every element is some `[k]B`.
pub open spec fn is_point(b: Seq<u8>) -> bool {
    exists|k: int| 0 <= k < group_order() && #[trigger] compressed_multiple(k) == b
}

/// The integers that a sequence of 32-byte strings encode.
pub open spec fn byte_vals(s: Seq<[u8; 32]>) -> Seq<int> {
    s.map_values(|b: [u8; 32]| le_value(b@))
}

/// `sum s[i] * k[i]`, the exponent of a multiscalar multiplication.
pub open spec fn lin_comb(s: Seq<int>, k: Seq<int>) -> int
    decreases s.len(),
{
    if s.len() == 0 || k.len() == 0 {
        0
    } else {
        lin_comb(s.drop_last(), k.drop_last()) + s.last() * k.last()
    }
}

/// Fixed-base multiplication `[s]B`, compressed; the scalar bytes are read
/// modulo the group order.
#[verifier::external_body]
fn dalek_basepoint_mul(s: &[u8; 32]) -> (r: [u8; 32])
    ensures
        r@ == compressed_multiple(modl(le_value(s@))),
{
    let s = DalekScalar::from_bytes_mod_order(*s);
    (curve25519_dalek::constants::RISTRETTO_BASEPOINT_TABLE * &s).compress().to_bytes()
}

/// `CompressedRistretto::decompress` succeeds exactly on encodings of group
/// elements.
#[verifier::external_body]
fn dalek_decompresses(b: &[u8; 32]) -> (r: bool)
    ensures
        r == is_point(b@),
{
    CompressedRistretto(*b).decompress().is_some()
}

/// Group addition, compressed. The group law is addition of discrete logarithms
/// modulo the order.
#[verifier::external_body]
fn dalek_point_add(a: &[u8; 32], b: &[u8; 32]) -> (r: [u8; 32])
    requires
        is_point(a@),
        is_point(b@),
    ensures
        forall|x: int, y: int|
            #![trigger compressed_multiple(x), compressed_multiple(y)]
            0 <= x < group_order() && 0 <= y < group_order() && compressed_multiple(x) == a@
                && compressed_multiple(y) == b@ ==> r@ == compressed_multiple(modl(x + y)),
{
    let a = CompressedRistretto(*a).decompress().unwrap();
    let b = CompressedRistretto(*b).decompress().unwrap();
    (a + b).compress().to_bytes()
}

/// Group subtraction, compressed.
#[verifier::external_body]
fn dalek_point_sub(a: &[u8; 32], b: &[u8; 32]) -> (r: [u8; 32])
    requires
        is_point(a@),
        is_point(b@),
    ensures
        forall|x: int, y: int|
            #![trigger compressed_multiple(x), compressed_multiple(y)]
            0 <= x < group_order() && 0 <= y < group_order() && compressed_multiple(x) == a@
                && compressed_multiple(y) == b@ ==> r@ == compressed_multiple(modl(x - y)),
{
    let a = CompressedRistretto(*a).decompress().unwrap();
    let b = CompressedRistretto(*b).decompress().unwrap();
    (a - b).compress().to_bytes()
}

/// Variable-base scalar multiplication, compressed.
#[verifier::external_body]
fn dalek_point_mul(p: &[u8; 32], s: &[u8; 32]) -> (r: [u8; 32])
    requires
        is_point(p@),
    ensures
        forall|x: int|
            #![trigger compressed_multiple(x)]
            0 <= x < group_order() && compressed_multiple(x) == p@ ==> r@ == compressed_multiple(
                modl(x * le_value(s@)),
            ),
{
    let p = CompressedRistretto(*p).decompress().unwrap();
    (p * DalekScalar::from_bytes_mod_order(*s)).compress().to_bytes()
}

/// `[s_i]P` for each scalar through one `RistrettoBasepointTable` built for
/// `P`, compressed: each result is the base's discrete logarithm times the
/// scalar, modulo the order.
#[verifier::external_body]
fn dalek_table_muls(base: &[u8; 32], scalars: &[[u8; 32]]) -> (r: Vec<[u8; 32]>)
    requires
        is_point(base@),
    ensures
        r@.len() == scalars@.len(),
        forall|x: int, i: int|
            #![trigger compressed_multiple(x), r@[i]]
            0 <= x < group_order() && compressed_multiple(x) == base@ && 0 <= i < r@.len()
                ==> r@[i]@ == compressed_multiple(modl(x * le_value(scalars@[i]@))),
{
    let p = CompressedRistretto(*base).decompress().unwrap();
    let table = RistrettoBasepointTable::create(&p);
    scalars.iter().map(|s| (&table * &DalekScalar::from_bytes_mod_order(*s)).compress().to_bytes()).collect()
}

/// `RistrettoPoint::vartime_multiscalar_mul`, compressed: the exponent is the
/// linear combination of the discrete logarithms.
#[verifier::external_body]
fn dalek_multiscalar_mul(scalars: &[[u8; 32]], points: &[[u8; 32]]) -> (r: [u8; 32])
    requires
        scalars@.len() == points@.len(),
        forall|i: int| 0 <= i < points@.len() ==> is_point(#[trigger] points@[i]@),
    ensures
        forall|ks: Seq<int>|
            #![trigger lin_comb(byte_vals(scalars@), ks)]
            ks.len() == points@.len() && (forall|i: int|
                0 <= i < ks.len() ==> 0 <= ks[i] < group_order() && compressed_multiple(ks[i])
                    == #[trigger] points@[i]@) ==> r@ == compressed_multiple(
                modl(lin_comb(byte_vals(scalars@), ks)),
            ),
{
    let s = scalars.iter().map(|b| DalekScalar::from_bytes_mod_order(*b));
    let p = points.iter().map(|b| CompressedRistretto(*b).decompress().unwrap());
    RistrettoPoint::vartime_multiscalar_mul(s, p).compress().to_bytes()
}

/// `RistrettoPoint::hash_from_bytes::<Sha512>`, compressed.
#[verifier::external_body]
fn dalek_hash_to_point(input: &[u8]) -> (r: [u8; 32])
    ensures
        r@ == hash_to_ristretto(input@),
        is_point(r@),
{
    RistrettoPoint::hash_from_bytes::<sha2::Sha512>(input).compress().to_bytes()
}

/// `RistrettoPoint::from_uniform_bytes`, compressed.
#[verifier::external_body]
fn dalek_from_uniform(input: &[u8; 64]) -> (r: [u8; 32])
    ensures
        r@ == ristretto_from_uniform(input@),
        is_point(r@),
{
    RistrettoPoint::from_uniform_bytes(input).compress().to_bytes()
}

/// `RistrettoPoint`'s `==` on two elements given by their encodings. The
/// Ristretto encoding is canonical: equal elements have equal encodings, and
/// elements of distinct discrete logarithm modulo the group order differ.
#[verifier::external_body]
fn dalek_point_eq(a: &[u8; 32], b: &[u8; 32]) -> (r: bool)
    requires
        is_point(a@),
        is_point(b@),
    ensures
        r == (a@ == b@),
        forall|x: int, y: int|
            #![trigger compressed_multiple(x), compressed_multiple(y)]
            0 <= x < group_order() && 0 <= y < group_order() && compressed_multiple(x) == a@
                && compressed_multiple(y) == b@ ==> (r <==> x == y),
{
    CompressedRistretto(*a).decompress().unwrap() == CompressedRistretto(*b).decompress().unwrap()
}

/// Byte-wise equality of two 32-byte strings.
pub fn bytes32_eq(a: &[u8; 32], b: &[u8; 32]) -> (r: bool)
    ensures
        r == (a@ == b@),
{
    let mut i: usize = 0;
    while i < 32
        invariant
            0 <= i <= 32,
            a@.len() == 32,
            b@.len() == 32,
            forall|j: int| 0 <= j < i ==> a@[j] == b@[j],
        decreases 32 - i,
    {
        if a[i] != b[i] {
            return false;
        }
        i = i + 1;
    }
    assert(a@ =~= b@);
    true
}

/// The label whose hash gives the second Pedersen generator.
pub open spec fn h_label() -> Seq<u8> {
    "poly-commit-proof:h".spec_bytes()
}

/// The discrete logarithm of the second Pedersen generator `h`.
pub closed spec fn h_dlog() -> int {
    choose|k: int| 0 <= k < group_order() && compressed_multiple(k) == hash_to_ristretto(h_label())
}

/// A group element.
#[derive(Clone, Copy)]
pub struct Point {
    bytes: [u8; 32],
    dlog: Ghost<int>,
}

impl View for Point {
    type V = int;

    /// The discrete logarithm of the element to the base point.
    closed spec fn view(&self) -> int {
        self.dlog@
    }
}

impl Point {
    #[verifier::type_invariant]
    closed spec fn inv(self) -> bool {
        0 <= self.dlog@ < group_order() && compressed_multiple(self.dlog@) == self.bytes@
    }

    /// The compressed encoding of the element.
    pub open spec fn enc(&self) -> Seq<u8> {
        compressed_multiple(self@)
    }

    /// `[s]B` for the base point `B`.
    pub fn basepoint_mul(s: &Scalar) -> (r: Point)
        ensures
            r@ == modl(s@),
    {
        let sb = s.to_bytes();
        let b = dalek_basepoint_mul(&sb);
        proof {
            lemma_modl_bound(s@ as int);
        }
        Point { bytes: b, dlog: Ghost(modl(s@)) }
    }

    /// The base point `g`.
    pub fn generator() -> (r: Point)
        ensures
            r@ == 1,
    {
        let one = Scalar::one();
        let r = Point::basepoint_mul(&one);
        proof {
            lemma_modl_bound(1);
        }
        r
    }

    /// The neutral element.
    pub fn identity() -> (r: Point)
        ensures
            r@ == 0,
    {
        let zero = Scalar::zero();
        let r = Point::basepoint_mul(&zero);
        proof {
            lemma_modl_bound(0);
        }
        r
    }

    /// The second Pedersen generator `h`, hashed from a fixed label.
    pub fn pedersen_h() -> (r: Point)
        ensures
            r@ == h_dlog(),
    {
        let label: &str = "poly-commit-proof:h";
        let b = dalek_hash_to_point(label.as_bytes());
        assert(b@ == hash_to_ristretto(h_label()));
        Point { bytes: b, dlog: Ghost(h_dlog()) }
    }

    /// `RistrettoPoint::from_uniform_bytes`.
    pub fn from_uniform_bytes(w: &[u8; 64]) -> (r: Point)
        ensures
            r.enc() == ristretto_from_uniform(w@),
    {
        let b = dalek_from_uniform(w);
        let ghost k = choose|k: int| 0 <= k < group_order() && compressed_multiple(k) == b@;
        Point { bytes: b, dlog: Ghost(k) }
    }

    /// The group sum.
    pub fn add(&self, other: &Point) -> (r: Point)
        ensures
            r@ == modl(self@ + other@),
    {
        proof {
            use_type_invariant(self);
            use_type_invariant(other);
            lemma_modl_bound(self@ + other@);
        }
        let b = dalek_point_add(&self.bytes, &other.bytes);
        Point { bytes: b, dlog: Ghost(modl(self@ + other@)) }
    }

    /// The group difference.
    pub fn sub(&self, other: &Point) -> (r: Point)
        ensures
            r@ == modl(self@ - other@),
    {
        proof {
            use_type_invariant(self);
            use_type_invariant(other);
            lemma_modl_bound(self@ - other@);
        }
        let b = dalek_point_sub(&self.bytes, &other.bytes);
        Point { bytes: b, dlog: Ghost(modl(self@ - other@)) }
    }

    /// The scalar multiple `[s]P`.
    pub fn mul(&self, s: &Scalar) -> (r: Point)
        ensures
            r@ == modl(self@ * s@),
    {
        proof {
            use_type_invariant(self);
            lemma_modl_bound(self@ * (s@ as int));
        }
        let sb = s.to_bytes();
        let b = dalek_point_mul(&self.bytes, &sb);
        Point { bytes: b, dlog: Ghost(modl(self@ * s@)) }
    }

    /// `[k]P` for a small integer `k`, by doubling and adding over the bits
    /// of `k` from the top.
    pub fn mul_small(&self, k: u64) -> (r: Point)
        ensures
            r@ == modl(self@ * k),
    {
        proof {
            vstd::std_specs::bits::axiom_u64_leading_zeros(k);
        }
        let lz = k.leading_zeros();
        let top: u64 = (64 - lz) as u64;
        proof {
            assert(k >> top == 0);
        }
        let mut acc = Point::identity();
        let mut i: u64 = top;
        while i > 0
            invariant
                i <= 64,
                acc@ == modl(self@ * (k >> i)),
            decreases i,
        {
            let j: u64 = i - 1;
            let ghost prev = acc@;
            let ghost hi = k >> i;
            acc = acc.add(&acc);
            let bit = (k >> j) & 1;
            if bit == 1 {
                acc = acc.add(self);
            }
            proof {
                assert(k >> j == 2 * (k >> i) + ((k >> j) & 1)) by (bit_vector)
                    requires
                        j < 64,
                        i == j + 1,
                ;
                assert(bit == 0 || bit == 1) by (bit_vector)
                    requires
                        bit == (k >> j) & 1,
                ;
                crate::arith::lemma_modl_add_cong(prev, prev, self@ * hi, self@ * hi);
                assert(self@ * (k >> j) == self@ * hi + self@ * hi + self@ * bit) by (nonlinear_arith)
                    requires
                        k >> j == 2 * hi + bit,
                ;
                if bit == 1 {
                    crate::arith::lemma_modl_add_cong(modl(prev + prev), self@, self@ * hi + self@ * hi, self@);
                    crate::arith::lemma_modl_idem(prev + prev);
                    crate::arith::lemma_modl_idem(self@);
                } else {
                    assert(self@ * bit == 0);
                    crate::arith::lemma_modl_idem(self@ * hi + self@ * hi);
                }
            }
            i = j;
        }
        proof {
            assert(k >> 0u64 == k) by (bit_vector);
        }
        acc
    }

    /// The multiples `[s_i]P` of one element, through one precomputed table.
    pub fn mul_many(&self, ss: &[Scalar]) -> (r: Vec<Point>)
        ensures
            r@.len() == ss@.len(),
            forall|i: int| 0 <= i < ss@.len() ==> (#[trigger] r@[i])@ == modl(self@ * ss@[i]@),
    {
        proof {
            use_type_invariant(self);
        }
        let mut sbs: Vec<[u8; 32]> = Vec::new();
        let mut i: usize = 0;
        while i < ss.len()
            invariant
                i <= ss@.len(),
                sbs@.len() == i,
                forall|q: int| 0 <= q < i ==> le_value((#[trigger] sbs@[q])@) == ss@[q]@,
            decreases ss@.len() - i,
        {
            sbs.push(ss[i].to_bytes());
            i = i + 1;
        }
        let bs = dalek_table_muls(&self.bytes, sbs.as_slice());
        let mut out: Vec<Point> = Vec::new();
        let mut i: usize = 0;
        while i < bs.len()
            invariant
                i <= bs@.len(),
                bs@.len() == ss@.len(),
                sbs@.len() == ss@.len(),
                0 <= self@ < group_order(),
                compressed_multiple(self@) == self.bytes@,
                forall|q: int| 0 <= q < ss@.len() ==> le_value((#[trigger] sbs@[q])@) == ss@[q]@,
                forall|x: int, q: int|
                    #![trigger compressed_multiple(x), bs@[q]]
                    0 <= x < group_order() && compressed_multiple(x) == self.bytes@ && 0 <= q < bs@.len()
                        ==> bs@[q]@ == compressed_multiple(modl(x * le_value(sbs@[q]@))),
                out@.len() == i,
                forall|q: int| 0 <= q < i ==> (#[trigger] out@[q])@ == modl(self@ * ss@[q]@),
            decreases bs@.len() - i,
        {
            let ghost k = modl(self@ * ss@[i as int]@);
            proof {
                let _ = compressed_multiple(self@);
                assert(bs@[i as int]@ == compressed_multiple(modl(self@ * le_value(sbs@[i as int]@))));
                lemma_modl_bound(self@ * ss@[i as int]@);
            }
            out.push(Point { bytes: bs[i], dlog: Ghost(k) });
            i = i + 1;
        }
        out
    }

    /// The canonical compressed encoding.
    pub fn to_bytes(&self) -> (r: [u8; 32])
        ensures
            r@ == self.enc(),
            is_point(r@),
            0 <= self@ < group_order(),
    {
        proof {
            use_type_invariant(self);
        }
        self.bytes
    }

    /// Decodes a compressed encoding, `None` when the bytes encode no element.
    pub fn from_bytes(b: &[u8; 32]) -> (r: Option<Point>)
        ensures
            r is Some <==> is_point(b@),
            r matches Some(p) ==> p.enc() == b@,
    {
        if dalek_decompresses(b) {
            let ghost k = choose|k: int| 0 <= k < group_order() && compressed_multiple(k) == b@;
            Some(Point { bytes: *b, dlog: Ghost(k) })
        } else {
            None
        }
    }

    /// Equality of the two elements.
    pub fn equals(&self, other: &Point) -> (r: bool)
        ensures
            r == (self@ == other@),
            r == (self.enc() == other.enc()),
    {
        proof {
            use_type_invariant(self);
            use_type_invariant(other);
        }
        dalek_point_eq(&self.bytes, &other.bytes)
    }
}

/// The base point `g`.
pub fn g() -> (r: Point)
    ensures
        r@ == 1,
{
    Point::generator()
}

/// The second Pedersen generator `h`.
pub fn h() -> (r: Point)
    ensures
        r@ == h_dlog(),
{
    Point::pedersen_h()
}

/// `g^s`.
pub fn g_mul_scalar(s: Scalar) -> (r: Point)
    ensures
        r@ == modl(s@),
{
    Point::basepoint_mul(&s)
}

/// `h^s`.
pub fn h_mul_scalar(s: Scalar) -> (r: Point)
    ensures
        r@ == modl(h_dlog() * s@),
{
    Point::pedersen_h().mul(&s)
}

/// The discrete logarithms of a sequence of elements.
pub open spec fn dlogs(ps: Seq<Point>) -> Seq<int> {
    ps.map_values(|p: Point| p@)
}

/// The values of a sequence of scalars.
pub open spec fn svals(ss: Seq<Scalar>) -> Seq<int> {
    ss.map_values(|s: Scalar| s@)
}

/// `sum scalars[i] * points[i]`, computed in variable time.
pub fn multiscalar_mul(scalars: &[Scalar], points: &[Point]) -> (r: Point)
    requires
        scalars@.len() == points@.len(),
    ensures
        r@ == modl(lin_comb(svals(scalars@), dlogs(points@))),
{
    let mut sb: Vec<[u8; 32]> = Vec::new();
    let mut pb: Vec<[u8; 32]> = Vec::new();
    let mut i: usize = 0;
    while i < points.len()
        invariant
            i <= points@.len(),
            scalars@.len() == points@.len(),
            sb@.len() == i,
            pb@.len() == i,
            forall|j: int| 0 <= j < i ==> le_value(#[trigger] sb@[j]@) == scalars@[j]@,
            forall|j: int| 0 <= j < i ==> 0 <= #[trigger] points@[j]@ < group_order(),
            forall|j: int| 0 <= j < i ==> #[trigger] pb@[j]@ == compressed_multiple(points@[j]@),
        decreases points@.len() - i,
    {
        let p = &points[i];
        proof {
            use_type_invariant(p);
        }
        let sbytes = scalars[i].to_bytes();
        let pbytes = p.to_bytes();
        sb.push(sbytes);
        pb.push(pbytes);
        assert(0 <= points@[i as int]@ < group_order());
        assert(pb@[i as int]@ == compressed_multiple(points@[i as int]@));
        assert(le_value(sb@[i as int]@) == scalars@[i as int]@);
        i = i + 1;
    }
    let ghost ks = dlogs(points@);
    assert forall|j: int| 0 <= j < pb@.len() implies is_point(#[trigger] pb@[j]@) by {
        assert(0 <= points@[j]@ < group_order());
        assert(compressed_multiple(points@[j]@) == pb@[j]@);
    }
    let ss = sb.as_slice();
    let ps = pb.as_slice();
    let b = dalek_multiscalar_mul(ss, ps);
    proof {
        assert(byte_vals(ss@) =~= svals(scalars@));
        assert forall|j: int| 0 <= j < ks.len() implies 0 <= ks[j] < group_order()
            && compressed_multiple(ks[j]) == #[trigger] ps@[j]@ by {}
        assert(b@ == compressed_multiple(modl(lin_comb(byte_vals(ss@), ks))));
        lemma_modl_bound(lin_comb(svals(scalars@), dlogs(points@)));
    }
    Point { bytes: b, dlog: Ghost(modl(lin_comb(svals(scalars@), dlogs(points@)))) }
}

impl PartialEq for Point {
    fn eq(&self, other: &Point) -> (r: bool) {
        self.equals(other)
    }
}

impl vstd::std_specs::cmp::PartialEqSpecImpl for Point {
    open spec fn obeys_eq_spec() -> bool {
        true
    }

    open spec fn eq_spec(&self, other: &Point) -> bool {
        self@ == other@
    }
}

/// The linear combination of elements with discrete logarithms `ks` by the
/// scalars `ss` is the neutral element.
pub open spec fn combination_is_identity(ss: Seq<int>, ks: Seq<int>) -> bool {
    modl(lin_comb(ss, ks)) == 0
}

/// Whether `sum scalars[i] * points[i]` is the neutral element.
pub fn check_combination(scalars: &[Scalar], points: &[Point]) -> (r: bool)
    requires
        scalars@.len() == points@.len(),
    ensures
        r == combination_is_identity(svals(scalars@), dlogs(points@)),
{
    let total = multiscalar_mul(scalars, points);
    let id = Point::identity();
    total.equals(&id)
}

/// The linear combination of four terms, unfolded.
pub proof fn lemma_lin_comb4(s: Seq<int>, k: Seq<int>)
    requires
        s.len() == 4,
        k.len() == 4,
    ensures
        lin_comb(s, k) == s[0] * k[0] + s[1] * k[1] + s[2] * k[2] + s[3] * k[3],
{
    reveal_with_fuel(lin_comb, 5);
    assert(s.drop_last().drop_last().drop_last().drop_last().len() == 0);
    assert(s.drop_last().drop_last().drop_last().last() == s[0]);
    assert(s.drop_last().drop_last().last() == s[1]);
    assert(s.drop_last().last() == s[2]);
    assert(k.drop_last().drop_last().drop_last().last() == k[0]);
    assert(k.drop_last().drop_last().last() == k[1]);
    assert(k.drop_last().last() == k[2]);
}

/// The linear combination of three terms, unfolded.
pub proof fn lemma_lin_comb3(s: Seq<int>, k: Seq<int>)
    requires
        s.len() == 3,
        k.len() == 3,
    ensures
        lin_comb(s, k) == s[0] * k[0] + s[1] * k[1] + s[2] * k[2],
{
    reveal_with_fuel(lin_comb, 4);
    assert(s.drop_last().drop_last().drop_last().len() == 0);
    assert(s.drop_last().drop_last().last() == s[0]);
    assert(s.drop_last().last() == s[1]);
    assert(k.drop_last().drop_last().last() == k[0]);
    assert(k.drop_last().last() == k[1]);
}

} // verus!
