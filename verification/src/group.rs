//! The two source groups of the BN254 pairing, behind trusted wrappers. A
//! point is opaque to the verifier; its mathematical model is its discrete
//! logarithm to the base of the fixed generator. For the first group the
//! curve has cofactor one, so it is cyclic of the prime order `q_order()`
//! and the logarithm is total. For the second group the curve order is that
//! prime times a cofactor coprime to it, so projecting a point onto the
//! prime-order subgroup is a homomorphism and the logarithm of the
//! projection is total as well. Committed evaluation of a polynomial
//! against a group basis lives here too.

use vstd::prelude::*;

use halo2curves::bn256::{Fr, G1Affine, G1, G2};
use halo2curves::group::Group;

use crate::field::{fadd, fmul, fpow, lemma_fmul_comm, lemma_fmul_one, lemma_fmul_zero,
    lemma_fmul_assoc, lemma_fmul_distrib, lemma_fpow_adds, lemma_fpow_zero, lemma_fpow_unfold,
    q_order, Fe};
use crate::poly::{pdeg, peval, Polynomial};
use crate::Error;

verus! {

#[verifier::external_type_specification]
#[verifier::external_body]
pub struct ExG1(G1);

#[verifier::external_type_specification]
#[verifier::external_body]
pub struct ExG2(G2);

#[verifier::external_type_specification]
#[verifier::external_body]
pub struct ExG1Affine(G1Affine);

/// The discrete logarithm of a projective point of the first source group,
/// to the base of the fixed generator; total because the curve has cofactor
/// one.
pub uninterp spec fn g1_dlog(p: G1) -> nat;

/// The discrete logarithm, to the base of the fixed generator, of a second
/// source group point's component in the prime-order subgroup; the cofactor
/// is coprime to the subgroup order, so the component is well defined for
/// every point.
pub uninterp spec fn g2_dlog(p: G2) -> nat;

/// The discrete logarithm of an affine point of the first source group.
pub uninterp spec fn g1a_dlog(p: G1Affine) -> nat;

/// The discrete logarithms of a vector of points.
pub open spec fn g1_dlogs(v: Seq<G1>) -> Seq<nat> {
    v.map_values(|p: G1| g1_dlog(p))
}

/// The discrete logarithms of a vector of points of the second group.
pub open spec fn g2_dlogs(v: Seq<G2>) -> Seq<nat> {
    v.map_values(|p: G2| g2_dlog(p))
}

/// Relies on `Group::generator` for bn256 `G1`: the fixed generator, the
/// base of the discrete logarithm.
#[verifier::external_body]
pub(crate) fn g1_generator() -> (r: G1)
    ensures
        g1_dlog(r) == 1,
{
    G1::generator()
}

/// Relies on `Group::identity` for bn256 `G1`: the neutral element.
#[verifier::external_body]
pub(crate) fn g1_identity() -> (r: G1)
    ensures
        g1_dlog(r) == 0,
{
    G1::identity()
}

/// Relies on point addition in bn256 `G1`, a cyclic group of the prime
/// order `q_order()`: discrete logarithms add modulo the group order.
#[verifier::external_body]
pub(crate) fn g1_add(a: &G1, b: &G1) -> (r: G1)
    ensures
        g1_dlog(r) == fadd(g1_dlog(*a), g1_dlog(*b)),
{
    a + b
}

/// Relies on scalar multiplication in bn256 `G1`: the discrete logarithm is
/// multiplied by the scalar modulo the group order. `Fr::from_raw` reduces
/// the limbs modulo the same order.
#[verifier::external_body]
pub(crate) fn g1_scalar_mul(p: &G1, s: &Fe) -> (r: G1)
    ensures
        g1_dlog(r) == fmul(g1_dlog(*p), s.val()),
{
    (*p) * Fr::from_raw([s.l0, s.l1, s.l2, s.l3])
}

/// Relies on `G1Affine::from`: the affine form of the same point.
#[verifier::external_body]
pub(crate) fn g1_to_affine(p: &G1) -> (r: G1Affine)
    ensures
        g1a_dlog(r) == g1_dlog(*p),
{
    G1Affine::from(*p)
}

/// Relies on `Group::generator` for bn256 `G2`.
#[verifier::external_body]
pub(crate) fn g2_generator() -> (r: G2)
    ensures
        g2_dlog(r) == 1,
{
    G2::generator()
}

/// Relies on `Group::identity` for bn256 `G2`.
#[verifier::external_body]
pub(crate) fn g2_identity() -> (r: G2)
    ensures
        g2_dlog(r) == 0,
{
    G2::identity()
}

/// Relies on point addition in bn256 `G2`: projection onto the prime-order
/// subgroup is a homomorphism, so the discrete logarithms of the components
/// add modulo `q_order()`.
#[verifier::external_body]
pub(crate) fn g2_add(a: &G2, b: &G2) -> (r: G2)
    ensures
        g2_dlog(r) == fadd(g2_dlog(*a), g2_dlog(*b)),
{
    a + b
}

/// Relies on scalar multiplication in bn256 `G2`: the component's discrete
/// logarithm is multiplied by the scalar modulo `q_order()`, and
/// `Fr::from_raw` reduces the limbs modulo the same order.
#[verifier::external_body]
pub(crate) fn g2_scalar_mul(p: &G2, s: &Fe) -> (r: G2)
    ensures
        g2_dlog(r) == fmul(g2_dlog(*p), s.val()),
{
    (*p) * Fr::from_raw([s.l0, s.l1, s.l2, s.l3])
}

/// The multi-scalar combination of coefficients with a basis of discrete
/// logarithms: the sum of `c[i] * basis[i]` modulo the field order.
pub open spec fn msm_val(c: Seq<nat>, basis: Seq<nat>) -> nat
    decreases c.len(),
{
    if c.len() == 0 || basis.len() == 0 {
        0
    } else {
        fadd(
            fmul(c[0], basis[0]),
            msm_val(c.subrange(1, c.len() as int), basis.subrange(1, basis.len() as int)),
        )
    }
}

/// Combining coefficients with consecutive powers of a reduced point `t`
/// evaluates the polynomial at `t`, up to the common power `t^k`.
pub proof fn lemma_msm_powers(c: Seq<nat>, basis: Seq<nat>, t: nat, k: nat)
    requires
        t < q_order(),
        c.len() <= basis.len(),
        forall|i: int| 0 <= i < basis.len() ==> basis[i] == fpow(t, (k + i) as nat),
    ensures
        msm_val(c, basis) == fmul(fpow(t, k), peval(c, t)),
    decreases c.len(),
{
    if c.len() == 0 {
        lemma_fmul_zero(fpow(t, k));
    } else {
        let tc = c.subrange(1, c.len() as int);
        let tb = basis.subrange(1, basis.len() as int);
        assert forall|i: int| 0 <= i < tb.len() implies tb[i] == fpow(t, ((k + 1) + i) as nat) by {
            assert(tb[i] == basis[i + 1]);
        }
        lemma_msm_powers(tc, tb, t, k + 1);
        let ptc = peval(tc, t);
        // t^(k+1) == t^k * t
        lemma_fpow_adds(t, k, 1);
        lemma_fpow_unfold(t, 1);
        lemma_fpow_zero(t);
        lemma_fmul_one(t);
        assert(fpow(t, 1) == t);
        // t^k (c0 + t ptc) == t^k c0 + (t^k t) ptc
        lemma_fmul_distrib(fpow(t, k), c[0], fmul(t, ptc));
        lemma_fmul_assoc(fpow(t, k), t, ptc);
        lemma_fmul_comm(fpow(t, k), c[0]);
        lemma_fmul_comm(fpow(t, k), t);
        lemma_fmul_comm(t, fpow(t, k));
        assert(basis[0] == fpow(t, k));
    }
}

impl Polynomial {
    /// Committed evaluation against a basis of points of the first group:
    /// the sum of `a_i B_i` over the coefficients up to the degree. Fails
    /// exactly when the basis is shorter than the degree plus one.
    pub fn eval_ptau(&self, ptau: &Vec<G1>) -> (res: Result<G1, Error>)
        requires
            self.wf(),
        ensures
            match res {
                Ok(p) => ptau.len() >= pdeg(self@) + 1 && g1_dlog(p) == msm_val(
                    self@.take(pdeg(self@) as int + 1),
                    g1_dlogs(ptau@).take(pdeg(self@) as int + 1),
                ),
                Err(e) => e == Error::BasisTooShort && ptau.len() < pdeg(self@) + 1,
            },
    {
        let d = self.deg();
        if ptau.len() < d + 1 {
            return Err(Error::BasisTooShort);
        }
        let ghost ct = self@.take(d + 1);
        let ghost bt = g1_dlogs(ptau@).take(d + 1);
        let mut accp = g1_identity();
        let mut i = d + 1;
        proof {
            assert(ct.skip(i as int) =~= Seq::<nat>::empty());
        }
        while i > 0
            invariant
                i <= d + 1,
                d == pdeg(self@),
                d < self.coeffs.len(),
                self.wf(),
                ptau@.len() >= d + 1,
                ct == self@.take(d + 1),
                bt == g1_dlogs(ptau@).take(d + 1),
                g1_dlog(accp) == msm_val(ct.skip(i as int), bt.skip(i as int)),
            decreases i,
        {
            i = i - 1;
            let term = g1_scalar_mul(&ptau[i], &self.coeffs[i]);
            let acc2 = g1_add(&term, &accp);
            proof {
                let cs = ct.skip(i as int);
                let bs = bt.skip(i as int);
                assert(cs[0] == self@[i as int]);
                assert(bs[0] == g1_dlog(ptau@[i as int]));
                assert(cs.subrange(1, cs.len() as int) =~= ct.skip(i as int + 1));
                assert(bs.subrange(1, bs.len() as int) =~= bt.skip(i as int + 1));
                lemma_fmul_comm(g1_dlog(ptau@[i as int]), self@[i as int]);
            }
            accp = acc2;
        }
        proof {
            assert(ct.skip(0) =~= ct);
            assert(bt.skip(0) =~= bt);
        }
        Ok(accp)
    }

    /// Committed evaluation against a basis of points of the second group.
    pub fn eval_ptau_g2(&self, ptau: &Vec<G2>) -> (res: Result<G2, Error>)
        requires
            self.wf(),
        ensures
            match res {
                Ok(p) => ptau.len() >= pdeg(self@) + 1 && g2_dlog(p) == msm_val(
                    self@.take(pdeg(self@) as int + 1),
                    g2_dlogs(ptau@).take(pdeg(self@) as int + 1),
                ),
                Err(e) => e == Error::BasisTooShort && ptau.len() < pdeg(self@) + 1,
            },
    {
        let d = self.deg();
        if ptau.len() < d + 1 {
            return Err(Error::BasisTooShort);
        }
        let ghost ct = self@.take(d + 1);
        let ghost bt = g2_dlogs(ptau@).take(d + 1);
        let mut accp = g2_identity();
        let mut i = d + 1;
        proof {
            assert(ct.skip(i as int) =~= Seq::<nat>::empty());
        }
        while i > 0
            invariant
                i <= d + 1,
                d == pdeg(self@),
                d < self.coeffs.len(),
                self.wf(),
                ptau@.len() >= d + 1,
                ct == self@.take(d + 1),
                bt == g2_dlogs(ptau@).take(d + 1),
                g2_dlog(accp) == msm_val(ct.skip(i as int), bt.skip(i as int)),
            decreases i,
        {
            i = i - 1;
            let term = g2_scalar_mul(&ptau[i], &self.coeffs[i]);
            let acc2 = g2_add(&term, &accp);
            proof {
                let cs = ct.skip(i as int);
                let bs = bt.skip(i as int);
                assert(cs[0] == self@[i as int]);
                assert(bs[0] == g2_dlog(ptau@[i as int]));
                assert(cs.subrange(1, cs.len() as int) =~= ct.skip(i as int + 1));
                assert(bs.subrange(1, bs.len() as int) =~= bt.skip(i as int + 1));
                lemma_fmul_comm(g2_dlog(ptau@[i as int]), self@[i as int]);
            }
            accp = acc2;
        }
        proof {
            assert(ct.skip(0) =~= ct);
            assert(bt.skip(0) =~= bt);
        }
        Ok(accp)
    }
}

} // verus!
