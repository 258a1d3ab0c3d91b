//! Polynomials over the scalar field, as coefficient vectors `a_0, ..., a_d`.

use crate::arith::{group_order, lemma_modl_add, lemma_modl_bound, lemma_modl_mul, modl};
use crate::group::svals;
use crate::scalar::Scalar;
use vstd::prelude::*;

verus! {

/// `a_0 + x (a_1 + x (a_2 + ...))`, the integer value of the polynomial at `x`.
pub open spec fn poly_sum(a: Seq<int>, x: int) -> int
    decreases a.len(),
{
    if a.len() == 0 {
        0
    } else {
        a[0] + x * poly_sum(a.subrange(1, a.len() as int), x)
    }
}

/// The polynomial with coefficients `a` evaluated at `x`, modulo the group order.
pub open spec fn poly_eval(a: Seq<int>, x: int) -> int {
    modl(poly_sum(a, x))
}

/// Evaluates the polynomial at `x` by Horner's rule.
pub fn eval_poly_at(coeffs: &[Scalar], x: Scalar) -> (r: Scalar)
    ensures
        r@ == poly_eval(svals(coeffs@), x@),
{
    let ghost a = svals(coeffs@);
    let mut acc = Scalar::zero();
    let mut i: usize = coeffs.len();
    proof {
        assert(a.subrange(i as int, a.len() as int).len() == 0);
        lemma_modl_bound(0);
    }
    while i > 0
        invariant
            i <= coeffs@.len(),
            a == svals(coeffs@),
            acc@ == modl(poly_sum(a.subrange(i as int, a.len() as int), x@)),
        decreases i,
    {
        let ghost prev = acc@;
        let ax = acc.mul(&x);
        acc = ax.add(&coeffs[i - 1]);
        proof {
            let tail = a.subrange(i as int, a.len() as int);
            let s = a.subrange(i - 1, a.len() as int);
            assert(s.subrange(1, s.len() as int) =~= tail);
            assert(s[0] == coeffs@[i - 1]@);
            lemma_modl_mul(poly_sum(tail, x@), x@);
            lemma_modl_add(poly_sum(tail, x@) * x@, coeffs@[i - 1]@);
            assert(poly_sum(tail, x@) * x@ == x@ * poly_sum(tail, x@)) by (nonlinear_arith);
        }
        i = i - 1;
    }
    proof {
        assert(a.subrange(0, a.len() as int) =~= a);
    }
    acc
}

/// The evaluations at `1, ..., n`.
pub fn eval_poly_on_1_to_n(coeffs: &[Scalar], n: usize) -> (r: Vec<Scalar>)
    ensures
        r@.len() == n,
        forall|j: int| 0 <= j < n ==> (#[trigger] r@[j])@ == poly_eval(svals(coeffs@), j + 1),
{
    let mut out: Vec<Scalar> = Vec::new();
    let mut j: usize = 0;
    while j < n
        invariant
            j <= n,
            out@.len() == j,
            forall|k: int| 0 <= k < j ==> (#[trigger] out@[k])@ == poly_eval(svals(coeffs@), k + 1),
        decreases n - j,
    {
        let x = Scalar::from_u64(j as u64 + 1);
        out.push(eval_poly_at(coeffs, x));
        j = j + 1;
    }
    out
}

/// A random polynomial of the given degree whose constant term is `constant`.
pub fn sample_random_polynomial_with_constant(degree: usize, constant: Scalar) -> (r: Vec<Scalar>)
    requires
        degree < usize::MAX,
    ensures
        r@.len() == degree + 1,
        r@[0] == constant,
{
    let mut coeffs: Vec<Scalar> = Vec::new();
    coeffs.push(constant);
    let mut i: usize = 0;
    while i < degree
        invariant
            i <= degree,
            coeffs@.len() == i + 1,
            coeffs@[0] == constant,
        decreases degree - i,
    {
        coeffs.push(Scalar::random());
        i = i + 1;
    }
    coeffs
}

} // verus!
