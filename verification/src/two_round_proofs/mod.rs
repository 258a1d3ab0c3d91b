//! Sigma proofs of the two-round protocol: equality of committed values,
//! knowledge of the openings behind a public key, and decommitment of a batch
//! of Pedersen commitments (plain and Fischlin-transformed).

pub mod comeq_proof;
pub mod completeness;
pub mod decom_proof;
pub mod decom_proof_fischlin;
pub mod pk_proof;

pub use decom_proof::{
    DecomProof, DecomStatement, DecomWitness, SchnorrDecomProof, SchnorrDecomProofParams,
};
pub use decom_proof_fischlin::{DecomFischlinProof, FischlinDecomProofParams, FischlinDecomScheme};

use crate::arith::{
    lemma_modl_add, lemma_modl_add_cong, lemma_modl_bound, lemma_modl_idem, lemma_modl_mul_cong,
    modl,
};
use vstd::prelude::*;

verus! {

/// A proof system for decommitment statements.
pub trait DecomProofScheme {
    type Statement;
    type Witness;
    type Proof;
    type Params;

    /// What the prover needs of its inputs.
    spec fn prove_requires(params: &Self::Params, statement: &Self::Statement, witness: &Self::Witness) -> bool;

    /// What a proof made by `prove` satisfies.
    spec fn proof_honest(
        params: &Self::Params,
        statement: &Self::Statement,
        witness: &Self::Witness,
        proof: &Self::Proof,
    ) -> bool;

    /// Whether the verifier accepts.
    spec fn proof_valid(params: &Self::Params, statement: &Self::Statement, proof: &Self::Proof) -> bool;

    /// When the prover may come back without a proof.
    spec fn prove_fails(params: &Self::Params, statement: &Self::Statement, witness: &Self::Witness) -> bool;

    fn prove(params: &Self::Params, statement: &Self::Statement, witness: &Self::Witness) -> (r:
        Option<Self::Proof>)
        requires
            Self::prove_requires(params, statement, witness),
        ensures
            r matches Some(p) ==> Self::proof_honest(params, statement, witness, &p),
            r is None ==> Self::prove_fails(params, statement, witness),
    ;

    fn verify(params: &Self::Params, statement: &Self::Statement, proof: &Self::Proof) -> (r: bool)
        ensures
            r == Self::proof_valid(params, statement, proof),
    ;
}

/// One Sigma equation over `g` and `h`: responses `z = alpha + e * w` for
/// both exponents make `z_x g + z_y h - T - e C` vanish whenever `T` and `C`
/// are the commitments to the nonces and to the witness.
pub proof fn lemma_sigma_eq2(
    zx: int,
    zy: int,
    t: int,
    c: int,
    ax: int,
    ay: int,
    x: int,
    y: int,
    e: int,
    h: int,
)
    requires
        zx == modl(ax + modl(e * x)),
        zy == modl(ay + modl(e * y)),
        modl(t) == modl(ax + ay * h),
        modl(c) == modl(x + y * h),
    ensures
        modl(zx * 1 + zy * h + modl(-1) * t + modl(-e) * c) == 0,
{
    let y1 = ax + e * x;
    let y2 = (ay + e * y) * h;
    let y3 = -1 * (ax + ay * h);
    let y4 = -e * (x + y * h);
    lemma_modl_idem(ax + modl(e * x));
    lemma_modl_add(ax, e * x);
    assert(zx * 1 == zx);
    lemma_modl_idem(ay + modl(e * y));
    lemma_modl_add(ay, e * y);
    lemma_modl_mul_cong(zy, h, ay + e * y, h);
    lemma_modl_idem(-1);
    lemma_modl_mul_cong(modl(-1), t, -1, ax + ay * h);
    lemma_modl_idem(-e);
    lemma_modl_mul_cong(modl(-e), c, -e, x + y * h);
    lemma_modl_add_cong(zx * 1, zy * h, y1, y2);
    lemma_modl_add_cong(zx * 1 + zy * h, modl(-1) * t, y1 + y2, y3);
    lemma_modl_add_cong(zx * 1 + zy * h + modl(-1) * t, modl(-e) * c, y1 + y2 + y3, y4);
    assert(y1 + y2 + y3 + y4 == 0) by (nonlinear_arith)
        requires
            y1 == ax + e * x,
            y2 == (ay + e * y) * h,
            y3 == -1 * (ax + ay * h),
            y4 == -e * (x + y * h),
    ;
    lemma_modl_bound(0);
}

/// The one-exponent form: `z g - T - e C` vanishes for `z = alpha + e * x`,
/// `T = g^alpha` and `C = g^x`.
pub proof fn lemma_sigma_eq1(zx: int, t: int, c: int, ax: int, x: int, e: int)
    requires
        zx == modl(ax + modl(e * x)),
        modl(t) == modl(ax),
        modl(c) == modl(x),
    ensures
        modl(zx * 1 + modl(-1) * t + modl(-e) * c) == 0,
{
    let y1 = ax + e * x;
    let y3 = -1 * ax;
    let y4 = -e * x;
    lemma_modl_idem(ax + modl(e * x));
    lemma_modl_add(ax, e * x);
    assert(zx * 1 == zx);
    lemma_modl_idem(-1);
    lemma_modl_mul_cong(modl(-1), t, -1, ax);
    lemma_modl_idem(-e);
    lemma_modl_mul_cong(modl(-e), c, -e, x);
    lemma_modl_add_cong(zx * 1, modl(-1) * t, y1, y3);
    lemma_modl_add_cong(zx * 1 + modl(-1) * t, modl(-e) * c, y1 + y3, y4);
    assert(y1 + y3 + y4 == 0) by (nonlinear_arith)
        requires
            y1 == ax + e * x,
            y3 == -1 * ax,
            y4 == -e * x,
    ;
    lemma_modl_bound(0);
}


/// What a Sigma equation over `g` and `h` says: `z_x g + z_y h = T + e C`,
/// in the exponent.
pub proof fn lemma_sigma_holds_means(zx: int, zy: int, t: int, c: int, e: int)
    ensures
        crate::two_round_proofs::comeq_proof::sigma_holds(zx, zy, t, c, e) <==> modl(zx + zy * crate::group::h_dlog())
            == modl(t + e * c),
{
    let h = crate::group::h_dlog();
    reveal_with_fuel(crate::group::lin_comb, 5);
    let ss = seq![zx, zy, modl(-1), modl(-e)];
    let ks = seq![1, h, t, c];
    assert(ss.drop_last().drop_last().drop_last().drop_last().len() == 0);
    assert(crate::group::lin_comb(ss, ks) == zx * 1 + zy * h + modl(-1) * t + modl(-e) * c) by {
        assert(ss.drop_last() =~= seq![zx, zy, modl(-1)]);
        assert(ks.drop_last() =~= seq![1, h, t]);
        assert(ss.drop_last().drop_last() =~= seq![zx, zy]);
        assert(ks.drop_last().drop_last() =~= seq![1, h]);
        assert(ss.drop_last().drop_last().drop_last() =~= seq![zx]);
        assert(ks.drop_last().drop_last().drop_last() =~= seq![1int]);
        assert(seq![zx].drop_last().len() == 0);
    }
    let s = zx * 1 + zy * h + modl(-1) * t + modl(-e) * c;
    let d = (zx + zy * h) - (t + e * c);
    lemma_modl_idem(-1);
    lemma_modl_mul_cong(modl(-1), t, -1, t);
    lemma_modl_idem(-e);
    lemma_modl_mul_cong(modl(-e), c, -e, c);
    assert(zx * 1 == zx);
    lemma_modl_add_cong(zx * 1 + zy * h, modl(-1) * t, zx + zy * h, -1 * t);
    lemma_modl_add_cong(zx * 1 + zy * h + modl(-1) * t, modl(-e) * c, zx + zy * h + -1 * t, -e * c);
    assert(zx + zy * h + -1 * t + -e * c == d) by (nonlinear_arith)
        requires
            d == (zx + zy * h) - (t + e * c),
    ;
    crate::arith::lemma_modl_diff_zero(zx + zy * h, t + e * c);
}

/// What a one-exponent Sigma equation says: `z g = T + e C`, in the exponent.
pub proof fn lemma_sigma1_means(z: int, t: int, c: int, e: int)
    ensures
        crate::group::combination_is_identity(seq![z, modl(-1), modl(-e)], seq![1, t, c]) <==> modl(z) == modl(t + e * c),
{
    reveal_with_fuel(crate::group::lin_comb, 4);
    let ss = seq![z, modl(-1), modl(-e)];
    let ks = seq![1, t, c];
    assert(crate::group::lin_comb(ss, ks) == z * 1 + modl(-1) * t + modl(-e) * c) by {
        assert(ss.drop_last() =~= seq![z, modl(-1)]);
        assert(ks.drop_last() =~= seq![1, t]);
        assert(ss.drop_last().drop_last() =~= seq![z]);
        assert(ks.drop_last().drop_last() =~= seq![1int]);
        assert(seq![z].drop_last().len() == 0);
    }
    lemma_modl_idem(-1);
    lemma_modl_mul_cong(modl(-1), t, -1, t);
    lemma_modl_idem(-e);
    lemma_modl_mul_cong(modl(-e), c, -e, c);
    assert(z * 1 == z);
    lemma_modl_add_cong(z * 1, modl(-1) * t, z, -1 * t);
    lemma_modl_add_cong(z * 1 + modl(-1) * t, modl(-e) * c, z + -1 * t, -e * c);
    assert(z + -1 * t + -e * c == z - (t + e * c)) by (nonlinear_arith);
    crate::arith::lemma_modl_diff_zero(z, t + e * c);
}

} // verus!
