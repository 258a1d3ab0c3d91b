//! Integer model of the scalar field: the group order and little-endian byte
//! strings read as natural numbers.

use vstd::prelude::*;

verus! {

/// The order of the Ristretto255 group, `2^252 + 27742317777372353535851937790883648493`.
pub open spec fn group_order() -> nat {
    7237005577332262213973186563042994240857116359379907606001950938285454250989nat
}

/// A little-endian byte string read as a natural number.
pub open spec fn le_value(b: Seq<u8>) -> int
    decreases b.len(),
{
    if b.len() == 0 {
        0
    } else {
        b[0] as int + 256 * le_value(b.subrange(1, b.len() as int))
    }
}

pub proof fn lemma_le_value_nonneg(b: Seq<u8>)
    ensures
        0 <= le_value(b),
    decreases b.len(),
{
    if b.len() > 0 {
        lemma_le_value_nonneg(b.subrange(1, b.len() as int));
    }
}

/// Reduction modulo the group order of an arbitrary integer.
pub open spec fn modl(x: int) -> int {
    x % (group_order() as int)
}

pub proof fn lemma_modl_bound(x: int)
    ensures
        0 <= modl(x) < group_order(),
        0 <= x < group_order() ==> modl(x) == x,
{
    vstd::arithmetic::div_mod::lemma_mod_bound(x, group_order() as int);
    if 0 <= x < group_order() {
        vstd::arithmetic::div_mod::lemma_small_mod(x as nat, group_order());
    }
}

pub proof fn lemma_modl_add(a: int, b: int)
    ensures
        modl(modl(a) + b) == modl(a + b),
        modl(a + modl(b)) == modl(a + b),
{
    vstd::arithmetic::div_mod::lemma_add_mod_noop(a, b, group_order() as int);
    vstd::arithmetic::div_mod::lemma_mod_twice(a, group_order() as int);
    vstd::arithmetic::div_mod::lemma_mod_twice(b, group_order() as int);
    vstd::arithmetic::div_mod::lemma_add_mod_noop(modl(a), b, group_order() as int);
    vstd::arithmetic::div_mod::lemma_add_mod_noop(a, modl(b), group_order() as int);
}

pub proof fn lemma_modl_mul(a: int, b: int)
    ensures
        modl(modl(a) * b) == modl(a * b),
        modl(a * modl(b)) == modl(a * b),
{
    vstd::arithmetic::div_mod::lemma_mul_mod_noop_left(a, b, group_order() as int);
    vstd::arithmetic::div_mod::lemma_mul_mod_noop_right(a, b, group_order() as int);
}

pub proof fn lemma_modl_sub(a: int, b: int)
    ensures
        modl(modl(a) - b) == modl(a - b),
        modl(a - modl(b)) == modl(a - b),
{
    vstd::arithmetic::div_mod::lemma_sub_mod_noop(a, b, group_order() as int);
    vstd::arithmetic::div_mod::lemma_mod_twice(a, group_order() as int);
    vstd::arithmetic::div_mod::lemma_mod_twice(b, group_order() as int);
    vstd::arithmetic::div_mod::lemma_sub_mod_noop(modl(a), b, group_order() as int);
    vstd::arithmetic::div_mod::lemma_sub_mod_noop(a, modl(b), group_order() as int);
}

/// Congruence is kept by sums.
pub proof fn lemma_modl_add_cong(x: int, y: int, x2: int, y2: int)
    requires
        modl(x) == modl(x2),
        modl(y) == modl(y2),
    ensures
        modl(x + y) == modl(x2 + y2),
{
    lemma_modl_add(x, y);
    lemma_modl_add(x2, y);
    lemma_modl_add(x2, y2);
}

/// Congruence is kept by products.
pub proof fn lemma_modl_mul_cong(x: int, y: int, x2: int, y2: int)
    requires
        modl(x) == modl(x2),
        modl(y) == modl(y2),
    ensures
        modl(x * y) == modl(x2 * y2),
{
    lemma_modl_mul(x, y);
    lemma_modl_mul(x2, y);
    lemma_modl_mul(x2, y2);
}

/// Congruence is kept by negation.
pub proof fn lemma_modl_neg_cong(x: int, x2: int)
    requires
        modl(x) == modl(x2),
    ensures
        modl(-x) == modl(-x2),
{
    lemma_modl_sub(0, x);
    lemma_modl_sub(0, x2);
}

/// A reduced value is congruent to itself unreduced.
pub proof fn lemma_modl_idem(x: int)
    ensures
        modl(modl(x)) == modl(x),
{
    vstd::arithmetic::div_mod::lemma_mod_twice(x, group_order() as int);
}


/// Two values are congruent exactly when their difference vanishes.
pub proof fn lemma_modl_diff_zero(a: int, b: int)
    ensures
        modl(a - b) == 0 <==> modl(a) == modl(b),
{
    lemma_modl_sub(a, b);
    lemma_modl_sub(modl(a), b);
    lemma_modl_add(a - b, b);
    lemma_modl_bound(0);
    assert(a - b + b == a);
    if modl(a) == modl(b) {
        assert(modl(modl(a) - modl(b)) == modl(0));
    }
}

} // verus!
