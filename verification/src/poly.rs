//! Dense univariate polynomials over the BN254 scalar field, with
//! coefficients stored in ascending degree. The mathematical model of a
//! polynomial is the sequence of its coefficient values; all operations are
//! specified against that model with arithmetic modulo the field order.

use vstd::prelude::*;

use crate::field::{
    fadd, fsub, fneg, fmul, q_order, Fe, fe_zero, fe_one, fe_from_u64, fe_add, fe_sub, fe_neg,
    fe_mul, fe_inv, fe_is_zero, lemma_fadd_assoc, lemma_fadd_zero, lemma_fadd_rearrange,
    lemma_fmul_zero, lemma_fmul_one, lemma_fmul_comm, lemma_fmul_assoc, lemma_fmul_distrib,
    lemma_fsub_self, lemma_fsub_nonzero, lemma_fadd_fsub_cancel, lemma_fmul_fneg,
    lemma_fsub_rearrange, lemma_fsub_add_cancel,
};
use crate::Error;

verus! {

use vstd::arithmetic::div_mod::*;
use vstd::arithmetic::mul::*;

/// Coefficient of `c` at position `i`, treating positions past the end as
/// zero coefficients.
pub open spec fn coeff_at(c: Seq<nat>, i: int) -> nat {
    if 0 <= i < c.len() {
        c[i]
    } else {
        0
    }
}

/// Coefficient-wise sum, padded to the longer operand.
pub open spec fn padd(a: Seq<nat>, b: Seq<nat>) -> Seq<nat> {
    Seq::new(
        if a.len() >= b.len() {
            a.len()
        } else {
            b.len()
        },
        |i: int| fadd(coeff_at(a, i), coeff_at(b, i)),
    )
}

/// Coefficient-wise difference, padded to the longer operand.
pub open spec fn psub(a: Seq<nat>, b: Seq<nat>) -> Seq<nat> {
    Seq::new(
        if a.len() >= b.len() {
            a.len()
        } else {
            b.len()
        },
        |i: int| fsub(coeff_at(a, i), coeff_at(b, i)),
    )
}

/// Coefficient-wise additive inverse.
pub open spec fn pneg(a: Seq<nat>) -> Seq<nat> {
    a.map_values(|v: nat| fneg(v))
}

/// All coefficients are zero.
pub open spec fn pis_zero(c: Seq<nat>) -> bool {
    forall|i: int| 0 <= i < c.len() ==> c[i] == 0
}

/// Degree: the largest position holding a nonzero coefficient, or zero for
/// constant and zero polynomials.
pub open spec fn pdeg(c: Seq<nat>) -> nat
    decreases c.len(),
{
    if c.len() <= 1 {
        0
    } else if c.last() != 0 {
        (c.len() - 1) as nat
    } else {
        pdeg(c.drop_last())
    }
}

/// All entries are reduced modulo the field order.
pub open spec fn reduced(c: Seq<nat>) -> bool {
    forall|i: int| 0 <= i < c.len() ==> c[i] < q_order()
}

/// All entries are pairwise distinct.
pub open spec fn pairwise_distinct(s: Seq<nat>) -> bool {
    forall|i: int, j: int| 0 <= i < j < s.len() ==> s[i] != s[j]
}

/// The coefficient of a padded sum at any position is the field sum of the
/// operands' coefficients at that position.
pub proof fn lemma_coeff_at_padd(a: Seq<nat>, b: Seq<nat>, i: int)
    ensures
        coeff_at(padd(a, b), i) == fadd(coeff_at(a, i), coeff_at(b, i)),
{
}

/// The coefficient of a padded difference at any position is the field
/// difference of the operands' coefficients at that position.
pub proof fn lemma_coeff_at_psub(a: Seq<nat>, b: Seq<nat>, i: int)
    ensures
        coeff_at(psub(a, b), i) == fsub(coeff_at(a, i), coeff_at(b, i)),
{
    if !(0 <= i < psub(a, b).len()) {
        lemma_fsub_self(0);
    }
}

/// Polynomial addition commutes.
pub proof fn lemma_padd_comm(a: Seq<nat>, b: Seq<nat>)
    ensures
        padd(a, b) == padd(b, a),
{
    assert(padd(a, b) =~= padd(b, a));
}

/// Polynomial addition associates.
pub proof fn lemma_padd_assoc(a: Seq<nat>, b: Seq<nat>, c: Seq<nat>)
    ensures
        padd(padd(a, b), c) == padd(a, padd(b, c)),
{
    assert forall|i: int|
        0 <= i < padd(padd(a, b), c).len() implies padd(padd(a, b), c)[i] == padd(
        a,
        padd(b, c),
    )[i] by {
        lemma_coeff_at_padd(a, b, i);
        lemma_coeff_at_padd(b, c, i);
        lemma_fadd_assoc(coeff_at(a, i), coeff_at(b, i), coeff_at(c, i));
    }
    assert(padd(padd(a, b), c) =~= padd(a, padd(b, c)));
}

/// The values of a sequence of field elements.
pub open spec fn vals(s: Seq<Fe>) -> Seq<nat> {
    s.map_values(|c: Fe| c.val())
}

/// The coefficient sequence shifted down by one position (the polynomial
/// divided by `X`, discarding the constant term); empty input stays empty.
pub open spec fn ctail(c: Seq<nat>) -> Seq<nat> {
    if c.len() == 0 {
        c
    } else {
        c.subrange(1, c.len() as int)
    }
}

/// Value of the polynomial with coefficients `c` at the point `x`, in
/// Horner form.
pub open spec fn peval(c: Seq<nat>, x: nat) -> nat
    decreases c.len(),
{
    if c.len() == 0 {
        0
    } else {
        fadd(c[0], fmul(x, peval(c.subrange(1, c.len() as int), x)))
    }
}

/// An evaluation is always reduced.
pub proof fn lemma_peval_bound(c: Seq<nat>, x: nat)
    ensures
        peval(c, x) < q_order(),
    decreases c.len(),
{
    if c.len() > 0 {
        lemma_peval_bound(c.subrange(1, c.len() as int), x);
    }
}

/// Horner step stated uniformly, also for the empty sequence.
pub proof fn lemma_peval_head(c: Seq<nat>, x: nat)
    ensures
        peval(c, x) == fadd(coeff_at(c, 0), fmul(x, peval(ctail(c), x))),
{
    if c.len() == 0 {
        lemma_fmul_zero(x);
    }
}

/// The tail of a padded sum is the padded sum of the tails.
pub proof fn lemma_ctail_padd(a: Seq<nat>, b: Seq<nat>)
    ensures
        ctail(padd(a, b)) =~= padd(ctail(a), ctail(b)),
{
}

/// Evaluation is additive: the value of a sum of polynomials is the field
/// sum of their values.
pub proof fn lemma_peval_add(a: Seq<nat>, b: Seq<nat>, x: nat)
    ensures
        peval(padd(a, b), x) == fadd(peval(a, x), peval(b, x)),
    decreases a.len() + b.len(),
{
    if a.len() == 0 && b.len() == 0 {
    } else {
        lemma_peval_add(ctail(a), ctail(b), x);
        lemma_ctail_padd(a, b);
        lemma_peval_head(padd(a, b), x);
        lemma_peval_head(a, x);
        lemma_peval_head(b, x);
        lemma_coeff_at_padd(a, b, 0);
        // x * (pa' + pb') == x * pa' + x * pb'
        lemma_fmul_distrib(x, peval(ctail(a), x), peval(ctail(b), x));
        // (a0 + b0) + (x pa' + x pb') == (a0 + x pa') + (b0 + x pb')
        lemma_fadd_rearrange(
            coeff_at(a, 0),
            coeff_at(b, 0),
            fmul(x, peval(ctail(a), x)),
            fmul(x, peval(ctail(b), x)),
        );
    }
}

/// All coefficients multiplied by the constant `k`.
pub open spec fn pscale(c: Seq<nat>, k: nat) -> Seq<nat> {
    c.map_values(|v: nat| fmul(k, v))
}

/// The polynomial times `X^k`: `k` zero coefficients in front.
pub open spec fn pshiftk(c: Seq<nat>, k: nat) -> Seq<nat> {
    Seq::new(k as nat, |i: int| 0nat) + c
}

/// Product of two polynomials, by recursion on the left operand:
/// `(a0 + X a') b == a0 b + X (a' b)`.
pub open spec fn pmul(a: Seq<nat>, b: Seq<nat>) -> Seq<nat>
    decreases a.len(),
{
    if a.len() == 0 {
        Seq::empty()
    } else {
        padd(pscale(b, a[0]), pshiftk(pmul(a.subrange(1, a.len() as int), b), 1))
    }
}

/// Length of a product of nonempty coefficient vectors.
pub proof fn lemma_pmul_len(a: Seq<nat>, b: Seq<nat>)
    requires
        a.len() >= 1,
        b.len() >= 1,
    ensures
        pmul(a, b).len() == a.len() + b.len() - 1,
    decreases a.len(),
{
    if a.len() > 1 {
        lemma_pmul_len(a.subrange(1, a.len() as int), b);
    } else {
        assert(a.subrange(1, a.len() as int).len() == 0);
        assert(pmul(a.subrange(1, a.len() as int), b) =~= Seq::<nat>::empty());
    }
}

/// Evaluation commutes with scaling.
pub proof fn lemma_peval_scale(c: Seq<nat>, k: nat, x: nat)
    ensures
        peval(pscale(c, k), x) == fmul(k, peval(c, x)),
    decreases c.len(),
{
    if c.len() == 0 {
        lemma_fmul_zero(k);
    } else {
        lemma_peval_scale(ctail(c), k, x);
        assert(ctail(pscale(c, k)) =~= pscale(ctail(c), k));
        lemma_peval_head(pscale(c, k), x);
        lemma_peval_head(c, x);
        let pt = peval(ctail(c), x);
        // k (c0 + x pt) == k c0 + k (x pt), and x (k pt) == k (x pt)
        lemma_fmul_distrib(k, c[0], fmul(x, pt));
        lemma_fmul_assoc(x, k, pt);
        lemma_fmul_assoc(k, x, pt);
        lemma_fmul_comm(x, k);
    }
}

/// Evaluating after a shift by one multiplies the value by the point.
pub proof fn lemma_peval_shift1(c: Seq<nat>, x: nat)
    ensures
        peval(pshiftk(c, 1), x) == fmul(x, peval(c, x)),
{
    let s = pshiftk(c, 1);
    assert(s[0] == 0);
    assert(ctail(s) =~= c);
    lemma_peval_head(s, x);
    lemma_fadd_zero(fmul(x, peval(c, x)));
}

/// Evaluation is multiplicative: the value of a product of polynomials is
/// the field product of their values.
pub proof fn lemma_peval_mul(a: Seq<nat>, b: Seq<nat>, x: nat)
    ensures
        peval(pmul(a, b), x) == fmul(peval(a, x), peval(b, x)),
    decreases a.len(),
{
    if a.len() == 0 {
        lemma_fmul_zero(peval(b, x));
    } else {
        let ta = a.subrange(1, a.len() as int);
        let pb = peval(b, x);
        let pta = peval(ta, x);
        lemma_peval_mul(ta, b, x);
        lemma_peval_add(pscale(b, a[0]), pshiftk(pmul(ta, b), 1), x);
        lemma_peval_scale(b, a[0], x);
        lemma_peval_shift1(pmul(ta, b), x);
        lemma_peval_head(a, x);
        // now: peval(pmul(a, b), x) == (a0 pb) + (x (pta pb))
        // want: (a0 + x pta) pb == (a0 pb) + ((x pta) pb)
        lemma_fmul_comm(peval(a, x), pb);
        lemma_fmul_distrib(pb, a[0], fmul(x, pta));
        lemma_fmul_comm(pb, a[0]);
        lemma_fmul_comm(pb, fmul(x, pta));
        lemma_fmul_assoc(x, pta, pb);
        lemma_fmul_comm(pta, pb);
        lemma_fmul_assoc(x, pb, pta);
        lemma_fmul_comm(x, pb);
        lemma_fmul_assoc(pb, x, pta);
    }
}

/// Scaling distributes over a padded sum of reduced coefficient vectors.
pub proof fn lemma_pscale_padd(b: Seq<nat>, c: Seq<nat>, k: nat)
    requires
        reduced(b),
        reduced(c),
    ensures
        pscale(padd(b, c), k) =~= padd(pscale(b, k), pscale(c, k)),
{
    assert forall|i: int| 0 <= i < padd(b, c).len() implies pscale(padd(b, c), k)[i] == padd(
        pscale(b, k),
        pscale(c, k),
    )[i] by {
        lemma_coeff_at_padd(pscale(b, k), pscale(c, k), i);
        if i < b.len() && i < c.len() {
            lemma_fmul_distrib(k, b[i], c[i]);
        } else if i < b.len() {
            lemma_fadd_zero(b[i]);
            lemma_fmul_distrib(k, b[i], 0);
            lemma_fmul_zero(k);
            lemma_fadd_zero(fmul(k, b[i]));
        } else {
            lemma_fadd_zero(c[i]);
            lemma_fmul_distrib(k, 0, c[i]);
            lemma_fmul_zero(k);
            lemma_fadd_zero(fmul(k, c[i]));
        }
    }
}

/// Shifting by one distributes over a padded sum.
pub proof fn lemma_pshift1_padd(u: Seq<nat>, v: Seq<nat>)
    ensures
        pshiftk(padd(u, v), 1) =~= padd(pshiftk(u, 1), pshiftk(v, 1)),
{
    assert forall|i: int| 0 <= i < pshiftk(padd(u, v), 1).len() implies pshiftk(padd(u, v), 1)[i]
        == padd(pshiftk(u, 1), pshiftk(v, 1))[i] by {
        lemma_coeff_at_padd(pshiftk(u, 1), pshiftk(v, 1), i);
        if i == 0 {
            assert(fadd(0, 0) == 0);
        }
    }
}

/// Rearranging a fourfold padded sum.
pub proof fn lemma_padd_rearrange(p: Seq<nat>, q: Seq<nat>, u: Seq<nat>, v: Seq<nat>)
    ensures
        padd(padd(p, q), padd(u, v)) =~= padd(padd(p, u), padd(q, v)),
{
    assert forall|i: int| 0 <= i < padd(padd(p, q), padd(u, v)).len() implies padd(
        padd(p, q),
        padd(u, v),
    )[i] == padd(padd(p, u), padd(q, v))[i] by {
        lemma_coeff_at_padd(padd(p, q), padd(u, v), i);
        lemma_coeff_at_padd(padd(p, u), padd(q, v), i);
        lemma_coeff_at_padd(p, q, i);
        lemma_coeff_at_padd(u, v, i);
        lemma_coeff_at_padd(p, u, i);
        lemma_coeff_at_padd(q, v, i);
        lemma_fadd_rearrange(coeff_at(p, i), coeff_at(q, i), coeff_at(u, i), coeff_at(v, i));
    }
}

/// Multiplication distributes over addition of reduced coefficient vectors.
pub proof fn lemma_pmul_distrib(a: Seq<nat>, b: Seq<nat>, c: Seq<nat>)
    requires
        reduced(b),
        reduced(c),
    ensures
        pmul(a, padd(b, c)) == padd(pmul(a, b), pmul(a, c)),
    decreases a.len(),
{
    if a.len() == 0 {
        assert(pmul(a, padd(b, c)) =~= padd(pmul(a, b), pmul(a, c)));
    } else {
        let ta = a.subrange(1, a.len() as int);
        lemma_pmul_distrib(ta, b, c);
        lemma_pscale_padd(b, c, a[0]);
        lemma_pshift1_padd(pmul(ta, b), pmul(ta, c));
        lemma_padd_rearrange(
            pscale(b, a[0]),
            pshiftk(pmul(ta, b), 1),
            pscale(c, a[0]),
            pshiftk(pmul(ta, c), 1),
        );
        assert(pshiftk(padd(pmul(ta, b), pmul(ta, c)), 1) =~= pshiftk(pmul(ta, padd(b, c)), 1));
        assert(pmul(a, padd(b, c)) =~= padd(
            padd(pscale(b, a[0]), pshiftk(pmul(ta, b), 1)),
            padd(pscale(c, a[0]), pshiftk(pmul(ta, c), 1)),
        ));
    }
}

/// The degree is below the coefficient count.
pub proof fn lemma_pdeg_lt(c: Seq<nat>)
    requires
        c.len() >= 1,
    ensures
        pdeg(c) < c.len(),
    decreases c.len(),
{
    if c.len() >= 2 && c.last() == 0 {
        lemma_pdeg_lt(c.drop_last());
    }
}

/// Coefficients above the degree are zero.
pub proof fn lemma_pdeg_zero_above(c: Seq<nat>, i: int)
    requires
        c.len() >= 1,
        pdeg(c) < i < c.len(),
    ensures
        c[i] == 0,
    decreases c.len(),
{
    if c.len() >= 2 {
        if c.last() != 0 {
            // pdeg is the last position: nothing above it
        } else {
            if i < c.len() - 1 {
                lemma_pdeg_zero_above(c.drop_last(), i);
            }
        }
    }
}

/// A nonzero polynomial has a nonzero coefficient at its degree.
pub proof fn lemma_pdeg_nonzero(c: Seq<nat>)
    requires
        c.len() >= 1,
        !pis_zero(c),
    ensures
        c[pdeg(c) as int] != 0,
        pdeg(c) < c.len(),
    decreases c.len(),
{
    if c.len() == 1 {
        assert(c[0] != 0);
    } else if c.last() != 0 {
    } else {
        let w = choose|i: int| 0 <= i < c.len() && c[i] != 0;
        assert(c.drop_last()[w] != 0);
        lemma_pdeg_nonzero(c.drop_last());
    }
}

/// The position of the top nonzero coefficient is the degree.
pub proof fn lemma_pdeg_char(c: Seq<nat>, k: int)
    requires
        c.len() >= 1,
        0 <= k < c.len(),
        c[k] != 0,
        forall|i: int| k < i < c.len() ==> c[i] == 0,
    ensures
        pdeg(c) == k,
    decreases c.len(),
{
    if k == c.len() - 1 {
        if c.len() >= 2 {
        }
    } else {
        assert(c.last() == 0);
        lemma_pdeg_char(c.drop_last(), k);
    }
}

/// A polynomial whose coefficients above position zero vanish has degree zero.
pub proof fn lemma_pdeg_zero_tail(c: Seq<nat>)
    requires
        c.len() >= 1,
        forall|i: int| 1 <= i < c.len() ==> c[i] == 0,
    ensures
        pdeg(c) == 0,
    decreases c.len(),
{
    if c.len() >= 2 {
        lemma_pdeg_zero_tail(c.drop_last());
    }
}

/// The degree seen through the constant coefficient: one more than the
/// degree of the shifted-down polynomial, unless that is zero everywhere.
pub proof fn lemma_pdeg_tail(c: Seq<nat>)
    requires
        c.len() >= 1,
    ensures
        pdeg(c) == if pis_zero(ctail(c)) {
            0nat
        } else {
            pdeg(ctail(c)) + 1
        },
    decreases c.len(),
{
    if c.len() == 1 {
    } else if c.last() != 0 {
        assert(ctail(c).last() == c.last());
        if ctail(c).len() >= 2 {
        } else {
            assert(ctail(c).len() == 1);
        }
    } else {
        lemma_pdeg_tail(c.drop_last());
        assert(ctail(c.drop_last()) =~= ctail(c).drop_last());
        assert(ctail(c).last() == c.last());
        if pis_zero(ctail(c.drop_last())) {
            assert forall|i: int| 0 <= i < ctail(c).len() implies ctail(c)[i] == 0 by {
                if i < ctail(c).len() - 1 {
                    assert(ctail(c)[i] == ctail(c).drop_last()[i]);
                    assert(ctail(c.drop_last())[i] == 0);
                } else {
                    assert(ctail(c)[i] == ctail(c).last());
                }
            }
            assert(pis_zero(ctail(c)));
        } else {
            let w = choose|i: int| 0 <= i < ctail(c.drop_last()).len() && ctail(c.drop_last())[i]
                != 0;
            assert(ctail(c)[w] != 0);
            assert(!pis_zero(ctail(c)));
            if ctail(c).len() >= 2 {
            }
        }
    }
}

/// A product with an everywhere-zero left factor is everywhere zero.
pub proof fn lemma_pis_zero_pmul(a: Seq<nat>, b: Seq<nat>)
    requires
        pis_zero(a),
    ensures
        pis_zero(pmul(a, b)),
    decreases a.len(),
{
    if a.len() > 0 {
        let ta = a.subrange(1, a.len() as int);
        lemma_pis_zero_pmul(ta, b);
        assert forall|i: int| 0 <= i < pmul(a, b).len() implies pmul(a, b)[i] == 0 by {
            lemma_coeff_at_padd(pscale(b, a[0]), pshiftk(pmul(ta, b), 1), i);
            if i < b.len() {
                lemma_fmul_zero(b[i]);
            }
        }
    }
}

/// The top coefficient of a product sits at the sum of the degrees and is the
/// field product of the top coefficients; everything above it is zero.
pub proof fn lemma_pmul_top(a: Seq<nat>, b: Seq<nat>)
    requires
        a.len() >= 1,
        b.len() >= 1,
        reduced(a),
        reduced(b),
    ensures
        pmul(a, b)[(pdeg(a) + pdeg(b)) as int] == fmul(a[pdeg(a) as int], b[pdeg(b) as int]),
        forall|i: int| pdeg(a) + pdeg(b) < i < a.len() + b.len() - 1 ==> pmul(a, b)[i] == 0,
    decreases a.len(),
{
    let ta = a.subrange(1, a.len() as int);
    let da = pdeg(a) as int;
    let db = pdeg(b) as int;
    let m = pmul(a, b);
    lemma_pmul_len(a, b);
    lemma_pdeg_tail(a);
    lemma_pdeg_lt(a);
    lemma_pdeg_lt(b);
    if pis_zero(ta) {
        assert(da == 0);
        lemma_pis_zero_pmul(ta, b);
        assert(m[db] == fmul(a[0], b[db])) by {
            lemma_coeff_at_padd(pscale(b, a[0]), pshiftk(pmul(ta, b), 1), db);
            if db < pshiftk(pmul(ta, b), 1).len() {
                assert(pshiftk(pmul(ta, b), 1)[db] == 0);
            }
            lemma_fadd_zero(fmul(a[0], b[db]));
        }
        assert forall|i: int| da + db < i < a.len() + b.len() - 1 implies m[i] == 0 by {
            lemma_coeff_at_padd(pscale(b, a[0]), pshiftk(pmul(ta, b), 1), i);
            if i < b.len() {
                lemma_pdeg_zero_above(b, i);
                lemma_fmul_zero(a[0]);
            }
            if i < pshiftk(pmul(ta, b), 1).len() && i >= 1 {
                assert(pshiftk(pmul(ta, b), 1)[i] == pmul(ta, b)[i - 1]);
            }
        }
    } else {
        assert(da == pdeg(ta) + 1);
        let dta = pdeg(ta) as int;
        lemma_pdeg_lt(ta);
        lemma_pmul_top(ta, b);
        lemma_pmul_len(ta, b);
        let top = fmul(ta[dta], b[db]);
        assert(m[da + db] == top) by {
            lemma_coeff_at_padd(pscale(b, a[0]), pshiftk(pmul(ta, b), 1), da + db);
            assert(pshiftk(pmul(ta, b), 1)[da + db] == pmul(ta, b)[dta + db]);
            if da + db < b.len() {
                lemma_pdeg_zero_above(b, da + db);
                lemma_fmul_zero(a[0]);
            }
            lemma_fadd_zero(top);
        }
        assert(ta[dta] == a[da]);
        assert forall|i: int| da + db < i < a.len() + b.len() - 1 implies m[i] == 0 by {
            lemma_coeff_at_padd(pscale(b, a[0]), pshiftk(pmul(ta, b), 1), i);
            if i < b.len() {
                lemma_pdeg_zero_above(b, i);
                lemma_fmul_zero(a[0]);
            }
            assert(pshiftk(pmul(ta, b), 1)[i] == pmul(ta, b)[i - 1]);
        }
    }
}

/// Product coefficients are reduced (or zero when out of range).
pub proof fn lemma_pmul_reduced(a: Seq<nat>, b: Seq<nat>, idx: int)
    ensures
        coeff_at(pmul(a, b), idx) < q_order(),
{
    if a.len() == 0 {
    } else {
        // the product is a padded sum, whose entries are field sums
    }
}

/// Raising one zero coefficient of the left factor adds the correspondingly
/// shifted and scaled copy of the right factor to the product.
pub proof fn lemma_pmul_update(a: Seq<nat>, b: Seq<nat>, p: int, c: nat, idx: int)
    requires
        b.len() >= 1,
        0 <= p < a.len(),
        a[p] == 0,
    ensures
        coeff_at(pmul(a.update(p, c), b), idx) == fadd(
            coeff_at(pmul(a, b), idx),
            coeff_at(pshiftk(pscale(b, c), p as nat), idx),
        ),
    decreases p,
{
    let a2 = a.update(p, c);
    let ta = a.subrange(1, a.len() as int);
    let ta2 = a2.subrange(1, a2.len() as int);
    lemma_pmul_reduced(a, b, idx);
    lemma_pmul_reduced(a2, b, idx);
    if p == 0 {
        assert(ta2 =~= ta);
        lemma_coeff_at_padd(pscale(b, c), pshiftk(pmul(ta2, b), 1), idx);
        lemma_coeff_at_padd(pscale(b, a[0]), pshiftk(pmul(ta, b), 1), idx);
        let t = coeff_at(pshiftk(pmul(ta, b), 1), idx);
        assert(coeff_at(pscale(b, a[0]), idx) == 0) by {
            if 0 <= idx < b.len() {
                lemma_fmul_zero(b[idx]);
            }
        }
        assert(t < q_order()) by {
            if 1 <= idx < 1 + pmul(ta, b).len() {
                lemma_pmul_reduced(ta, b, idx - 1);
            }
        }
        lemma_fadd_zero(t);
        assert(pshiftk(pscale(b, c), 0) =~= pscale(b, c));
    } else {
        assert(ta2 =~= ta.update(p - 1, c));
        assert(a2[0] == a[0]);
        lemma_pmul_update(ta, b, p - 1, c, idx - 1);
        lemma_coeff_at_padd(pscale(b, a[0]), pshiftk(pmul(ta, b), 1), idx);
        lemma_coeff_at_padd(pscale(b, a[0]), pshiftk(pmul(ta2, b), 1), idx);
        let p0 = coeff_at(pscale(b, a[0]), idx);
        let told = coeff_at(pmul(ta, b), idx - 1);
        let s = coeff_at(pshiftk(pscale(b, c), (p - 1) as nat), idx - 1);
        assert(coeff_at(pshiftk(pscale(b, c), p as nat), idx) == if idx == 0 {
            0nat
        } else {
            s
        });
        if idx == 0 {
            assert(coeff_at(pshiftk(pmul(ta, b), 1), 0) == 0);
            assert(coeff_at(pshiftk(pmul(ta2, b), 1), 0) == 0);
            lemma_small_mod(fadd(p0, 0), q_order());
        } else {
            assert(coeff_at(pshiftk(pmul(ta, b), 1), idx) == told);
            assert(coeff_at(pshiftk(pmul(ta2, b), 1), idx) == coeff_at(
                pmul(ta2, b),
                idx - 1,
            ));
            lemma_fadd_assoc(p0, told, s);
        }
    }
}

/// A constant polynomial evaluates to its (reduced) constant.
pub proof fn lemma_peval_const(cv: nat, x: nat)
    requires
        cv < q_order(),
    ensures
        peval(seq![cv], x) == cv,
{
    assert(seq![cv].subrange(1, 1) =~= Seq::<nat>::empty());
    assert(peval(Seq::<nat>::empty(), x) == 0);
    lemma_fmul_zero(x);
    lemma_fadd_zero(cv);
}

/// An everywhere-zero polynomial evaluates to zero.
pub proof fn lemma_peval_zero(c: Seq<nat>, x: nat)
    requires
        pis_zero(c),
    ensures
        peval(c, x) == 0,
    decreases c.len(),
{
    if c.len() > 0 {
        lemma_peval_zero(c.subrange(1, c.len() as int), x);
        lemma_fmul_zero(x);
    }
}

/// Dropping a zero top coefficient keeps the value.
pub proof fn lemma_peval_drop_last_zero(c: Seq<nat>, x: nat)
    requires
        c.len() >= 1,
        c.last() == 0,
    ensures
        peval(c, x) == peval(c.drop_last(), x),
    decreases c.len(),
{
    if c.len() == 1 {
        lemma_fmul_zero(x);
        assert(c.drop_last() =~= Seq::<nat>::empty());
        assert(c =~= seq![0nat]);
        assert(peval(c, x) == fadd(0, fmul(x, peval(c.subrange(1, 1), x))));
        assert(c.subrange(1, 1) =~= Seq::<nat>::empty());
    } else {
        let t = c.subrange(1, c.len() as int);
        lemma_peval_drop_last_zero(t, x);
        assert(c.drop_last().subrange(1, c.len() - 1) =~= t.drop_last());
        assert(c.drop_last()[0] == c[0]);
    }
}

/// Evaluation only depends on the coefficients up to the degree.
pub proof fn lemma_peval_trim(c: Seq<nat>, x: nat)
    requires
        c.len() >= 1,
    ensures
        peval(c.take(pdeg(c) as int + 1), x) == peval(c, x),
    decreases c.len(),
{
    if c.len() == pdeg(c) + 1 {
        assert(c.take(pdeg(c) as int + 1) =~= c);
    } else {
        lemma_pdeg_lt(c);
        assert(c.last() == 0) by {
            lemma_pdeg_zero_above(c, c.len() - 1);
        }
        lemma_peval_drop_last_zero(c, x);
        lemma_peval_trim(c.drop_last(), x);
        assert(c.drop_last().take(pdeg(c.drop_last()) as int + 1) =~= c.take(pdeg(c) as int + 1)) by {
            assert(pdeg(c.drop_last()) == pdeg(c));
            lemma_pdeg_lt(c.drop_last());
        }
    }
}

/// The tail of a padded difference is the padded difference of the tails.
pub proof fn lemma_ctail_psub(a: Seq<nat>, b: Seq<nat>)
    ensures
        ctail(psub(a, b)) =~= psub(ctail(a), ctail(b)),
{
}

/// Evaluation is subtractive: the value of a difference of polynomials is
/// the field difference of their values.
pub proof fn lemma_peval_sub(a: Seq<nat>, b: Seq<nat>, x: nat)
    ensures
        peval(psub(a, b), x) == fsub(peval(a, x), peval(b, x)),
    decreases a.len() + b.len(),
{
    if a.len() == 0 && b.len() == 0 {
        lemma_fsub_self(0);
    } else {
        lemma_peval_sub(ctail(a), ctail(b), x);
        lemma_ctail_psub(a, b);
        lemma_peval_head(psub(a, b), x);
        lemma_peval_head(a, x);
        lemma_peval_head(b, x);
        lemma_coeff_at_psub(a, b, 0);
        let pa = peval(ctail(a), x);
        let pb = peval(ctail(b), x);
        // x (pa - pb) == x pa - x pb
        lemma_fmul_distrib(x, pa, fneg(pb));
        lemma_fmul_fneg(x, pb);
        // (a0 - b0) + (x pa - x pb) == (a0 + x pa) - (b0 + x pb)
        lemma_fsub_rearrange(coeff_at(a, 0), coeff_at(b, 0), fmul(x, pa), fmul(x, pb));
    }
}

/// Appending a zero coefficient to the left factor keeps every product
/// coefficient.
pub proof fn lemma_pmul_append_zero(a: Seq<nat>, b: Seq<nat>, idx: int)
    requires
        b.len() >= 1,
    ensures
        coeff_at(pmul(a.push(0nat), b), idx) == coeff_at(pmul(a, b), idx),
    decreases a.len(),
{
    if a.len() == 0 {
        let e = a.push(0nat);
        assert(e.subrange(1, 1) =~= Seq::<nat>::empty());
        assert(pmul(e.subrange(1, 1), b) =~= Seq::<nat>::empty());
        lemma_coeff_at_padd(pscale(b, 0), pshiftk(pmul(e.subrange(1, 1), b), 1), idx);
        assert(coeff_at(pscale(b, 0), idx) == 0) by {
            if 0 <= idx < b.len() {
                lemma_fmul_zero(b[idx]);
            }
        }
        assert(coeff_at(pshiftk(pmul(e.subrange(1, 1), b), 1), idx) == 0);
        assert(fadd(0, 0) == 0);
    } else {
        let e = a.push(0nat);
        let ta = a.subrange(1, a.len() as int);
        assert(e.subrange(1, e.len() as int) =~= ta.push(0nat));
        assert(e[0] == a[0]);
        lemma_pmul_append_zero(ta, b, idx - 1);
        lemma_coeff_at_padd(pscale(b, a[0]), pshiftk(pmul(ta.push(0nat), b), 1), idx);
        lemma_coeff_at_padd(pscale(b, a[0]), pshiftk(pmul(ta, b), 1), idx);
        if idx >= 1 {
            assert(coeff_at(pshiftk(pmul(ta.push(0nat), b), 1), idx) == coeff_at(
                pmul(ta.push(0nat), b),
                idx - 1,
            ));
            assert(coeff_at(pshiftk(pmul(ta, b), 1), idx) == coeff_at(pmul(ta, b), idx - 1));
        } else {
            assert(coeff_at(pshiftk(pmul(ta.push(0nat), b), 1), idx) == 0);
            assert(coeff_at(pshiftk(pmul(ta, b), 1), idx) == 0);
        }
    }
}

/// Shifting keeps a zero value.
pub proof fn lemma_peval_shiftk_zero(c: Seq<nat>, k: nat, x: nat)
    requires
        peval(c, x) == 0,
    ensures
        peval(pshiftk(c, k), x) == 0,
    decreases k,
{
    if k == 0 {
        assert(pshiftk(c, 0) =~= c);
    } else {
        lemma_peval_shiftk_zero(c, (k - 1) as nat, x);
        assert(pshiftk(c, k) =~= pshiftk(pshiftk(c, (k - 1) as nat), 1));
        lemma_peval_shift1(pshiftk(c, (k - 1) as nat), x);
        lemma_fmul_zero(x);
    }
}

/// Splitting off a root: a reduced polynomial that vanishes at a reduced
/// point is, coefficient for coefficient, a polynomial times `X` minus that
/// point.
pub proof fn lemma_split_root(s: Seq<nat>, a: nat) -> (q: Seq<nat>)
    requires
        s.len() >= 1,
        reduced(s),
        a < q_order(),
        peval(s, a) == 0,
    ensures
        q.len() == s.len() - 1,
        reduced(q),
        forall|idx: int| coeff_at(pmul(q, lin_root(a)), idx) == coeff_at(s, idx),
    decreases s.len(),
{
    if s.len() == 1 {
        // a vanishing constant is zero
        assert(s.subrange(1, 1) =~= Seq::<nat>::empty());
        assert(peval(Seq::<nat>::empty(), a) == 0);
        lemma_fmul_zero(a);
        lemma_fadd_zero(s[0]);
        assert(peval(s, a) == fadd(s[0], fmul(a, 0)));
        assert(s[0] == 0);
        let q = Seq::<nat>::empty();
        assert(pmul(q, lin_root(a)) =~= Seq::<nat>::empty());
        q
    } else {
        let ll = s.len() as int;
        let c = s.last();
        let m = pshiftk(pscale(lin_root(a), c), (ll - 2) as nat);
        let sflat = psub(s, m);
        // the top coefficients cancel: m's top is c itself
        assert(m.len() == ll);
        assert(m[ll - 1] == fmul(c, 1));
        lemma_fmul_one(c);
        lemma_coeff_at_psub(s, m, ll - 1);
        lemma_fsub_self(c);
        assert(sflat[ll - 1] == 0);
        // the flattened polynomial still vanishes at the point
        lemma_peval_sub(s, m, a);
        lemma_peval_scale(lin_root(a), c, a);
        lemma_peval_lin(a, a);
        lemma_fsub_self(a);
        lemma_fmul_zero(c);
        lemma_peval_shiftk_zero(pscale(lin_root(a), c), (ll - 2) as nat, a);
        lemma_fsub_self(0);
        assert(peval(sflat, a) == 0);
        let sb = sflat.drop_last();
        lemma_peval_drop_last_zero(sflat, a);
        assert(reduced(sb)) by {
            assert forall|i: int| 0 <= i < sb.len() implies sb[i] < q_order() by {
                assert(sb[i] == sflat[i]);
            }
        }
        let qb = lemma_split_root(sb, a);
        let qe = qb.push(0nat);
        let q = qe.update(ll - 2, c);
        assert forall|idx: int| coeff_at(pmul(q, lin_root(a)), idx) == coeff_at(s, idx) by {
            lemma_pmul_update(qe, lin_root(a), ll - 2, c, idx);
            lemma_pmul_append_zero(qb, lin_root(a), idx);
            assert(coeff_at(sb, idx) == coeff_at(sflat, idx));
            lemma_coeff_at_psub(s, m, idx);
            lemma_fsub_add_cancel(coeff_at(s, idx), coeff_at(m, idx));
        }
        assert(q =~= qe.update(ll - 2, c));
        q
    }
}

/// Scaling distributes over a padded difference of reduced vectors.
pub proof fn lemma_pscale_psub(b: Seq<nat>, c: Seq<nat>, k: nat)
    requires
        reduced(b),
        reduced(c),
    ensures
        pscale(psub(b, c), k) =~= psub(pscale(b, k), pscale(c, k)),
{
    assert forall|i: int| 0 <= i < psub(b, c).len() implies pscale(psub(b, c), k)[i] == psub(
        pscale(b, k),
        pscale(c, k),
    )[i] by {
        lemma_coeff_at_psub(pscale(b, k), pscale(c, k), i);
        let bi = coeff_at(b, i);
        let ci = coeff_at(c, i);
        // k (bi - ci) == k bi - k ci
        lemma_fmul_distrib(k, bi, fneg(ci));
        lemma_fmul_fneg(k, ci);
        if i < b.len() && i < c.len() {
        } else if i < b.len() {
            lemma_fsub_self(0);
            lemma_fmul_zero(k);
            assert(fsub(bi, 0) == fadd(bi, fneg(0)));
            lemma_fadd_zero(bi);
            lemma_fadd_zero(fmul(k, bi));
            assert(fneg(0) == 0);
        } else {
            lemma_fmul_zero(k);
            assert(fsub(0, ci) == fadd(0, fneg(ci)));
            lemma_fadd_zero(fneg(ci));
            lemma_fadd_zero(fneg(fmul(k, ci)));
        }
    }
}

/// Shifting by one distributes over a padded difference.
pub proof fn lemma_pshift1_psub(u: Seq<nat>, v: Seq<nat>)
    ensures
        pshiftk(psub(u, v), 1) =~= psub(pshiftk(u, 1), pshiftk(v, 1)),
{
    assert forall|i: int| 0 <= i < pshiftk(psub(u, v), 1).len() implies pshiftk(psub(u, v), 1)[i]
        == psub(pshiftk(u, 1), pshiftk(v, 1))[i] by {
        lemma_coeff_at_psub(pshiftk(u, 1), pshiftk(v, 1), i);
        if i == 0 {
            lemma_fsub_self(0);
        }
    }
}

/// Interchanging a padded sum of differences into a difference of sums.
pub proof fn lemma_padd_psub_rearrange(x1: Seq<nat>, x2: Seq<nat>, y1: Seq<nat>, y2: Seq<nat>)
    ensures
        padd(psub(x1, x2), psub(y1, y2)) =~= psub(padd(x1, y1), padd(x2, y2)),
{
    assert forall|i: int| 0 <= i < padd(psub(x1, x2), psub(y1, y2)).len() implies padd(
        psub(x1, x2),
        psub(y1, y2),
    )[i] == psub(padd(x1, y1), padd(x2, y2))[i] by {
        lemma_coeff_at_padd(psub(x1, x2), psub(y1, y2), i);
        lemma_coeff_at_psub(padd(x1, y1), padd(x2, y2), i);
        lemma_coeff_at_psub(x1, x2, i);
        lemma_coeff_at_psub(y1, y2, i);
        lemma_coeff_at_padd(x1, y1, i);
        lemma_coeff_at_padd(x2, y2, i);
        lemma_fsub_rearrange(coeff_at(x1, i), coeff_at(x2, i), coeff_at(y1, i), coeff_at(y2, i));
    }
}

/// Multiplication is linear in the left factor over subtraction of reduced
/// coefficient vectors.
pub proof fn lemma_pmul_psub(a1: Seq<nat>, a2: Seq<nat>, b: Seq<nat>, idx: int)
    requires
        reduced(a1),
        reduced(a2),
        reduced(b),
    ensures
        coeff_at(pmul(psub(a1, a2), b), idx) == coeff_at(psub(pmul(a1, b), pmul(a2, b)), idx),
    decreases a1.len() + a2.len(),
{
    let d = psub(a1, a2);
    if a1.len() == 0 && a2.len() == 0 {
        lemma_coeff_at_psub(pmul(a1, b), pmul(a2, b), idx);
        lemma_fsub_self(0);
    } else {
        let td = d.subrange(1, d.len() as int);
        lemma_ctail_psub(a1, a2);
        assert(td =~= psub(ctail(a1), ctail(a2)));
        assert forall|j: int| coeff_at(pmul(td, b), j) == coeff_at(
            psub(pmul(ctail(a1), b), pmul(ctail(a2), b)),
            j,
        ) by {
            assert(reduced(ctail(a1))) by {
                assert forall|i: int| 0 <= i < ctail(a1).len() implies ctail(a1)[i]
                    < q_order() by {
                    assert(ctail(a1)[i] == a1[i + 1]);
                }
            }
            assert(reduced(ctail(a2))) by {
                assert forall|i: int| 0 <= i < ctail(a2).len() implies ctail(a2)[i]
                    < q_order() by {
                    assert(ctail(a2)[i] == a2[i + 1]);
                }
            }
            lemma_pmul_psub(ctail(a1), ctail(a2), b, j);
        }
        // head: the scaled copies subtract
        lemma_coeff_at_psub(a1, a2, 0);
        assert(d[0] == fsub(coeff_at(a1, 0), coeff_at(a2, 0)));
        lemma_coeff_at_padd(pscale(b, d[0]), pshiftk(pmul(td, b), 1), idx);
        lemma_coeff_at_psub(pmul(a1, b), pmul(a2, b), idx);
        lemma_pmul_psub_combine(a1, a2, b, td, idx);
    }
}

/// The combining step of the left-linearity proof, split out to keep each
/// query small: with the tails already related, one position of the
/// product of the difference equals the difference of the products.
proof fn lemma_pmul_psub_combine(a1: Seq<nat>, a2: Seq<nat>, b: Seq<nat>, td: Seq<nat>, idx: int)
    requires
        reduced(a1),
        reduced(a2),
        reduced(b),
        a1.len() + a2.len() > 0,
        td =~= psub(ctail(a1), ctail(a2)),
        forall|j: int|
            coeff_at(pmul(td, b), j) == coeff_at(
                psub(pmul(ctail(a1), b), pmul(ctail(a2), b)),
                j,
            ),
    ensures
        coeff_at(pmul(psub(a1, a2), b), idx) == coeff_at(psub(pmul(a1, b), pmul(a2, b)), idx),
{
    let d = psub(a1, a2);
    assert(d.subrange(1, d.len() as int) =~= td);
    lemma_coeff_at_psub(a1, a2, 0);
    let h1 = coeff_at(a1, 0);
    let h2 = coeff_at(a2, 0);
    lemma_coeff_at_padd(pscale(b, d[0]), pshiftk(pmul(td, b), 1), idx);
    lemma_coeff_at_psub(pmul(a1, b), pmul(a2, b), idx);
    // left side pieces
    let sc = coeff_at(pscale(b, fsub(h1, h2)), idx);
    let sh = coeff_at(pshiftk(pmul(td, b), 1), idx);
    // right side pieces, through the unfoldings of the two products
    let m1 = coeff_at(pmul(a1, b), idx);
    let m2 = coeff_at(pmul(a2, b), idx);
    lemma_pmul_head_coeff(a1, b, idx);
    lemma_pmul_head_coeff(a2, b, idx);
    let t1 = coeff_at(pshiftk(pmul(ctail(a1), b), 1), idx);
    let t2 = coeff_at(pshiftk(pmul(ctail(a2), b), 1), idx);
    let bi = coeff_at(b, idx);
    // scale coefficient: (h1 - h2) b_i == h1 b_i - h2 b_i
    assert(sc == fsub(fmul(h1, bi), fmul(h2, bi))) by {
        if 0 <= idx < b.len() {
            lemma_fmul_comm(fsub(h1, h2), bi);
            lemma_fmul_distrib(bi, h1, fneg(h2));
            lemma_fmul_fneg(bi, h2);
            lemma_fmul_comm(bi, h1);
            lemma_fmul_comm(bi, h2);
        } else {
            lemma_fmul_zero(fsub(h1, h2));
            lemma_fmul_zero(h1);
            lemma_fmul_zero(h2);
            lemma_fsub_self(0);
        }
    }
    // shift coefficient: the tails subtract
    assert(sh == fsub(t1, t2)) by {
        if idx >= 1 {
            assert(sh == coeff_at(pmul(td, b), idx - 1));
            assert(t1 == coeff_at(pmul(ctail(a1), b), idx - 1));
            assert(t2 == coeff_at(pmul(ctail(a2), b), idx - 1));
            lemma_coeff_at_psub(pmul(ctail(a1), b), pmul(ctail(a2), b), idx - 1);
        } else {
            lemma_fsub_self(0);
            assert(sh == 0);
            assert(t1 == 0);
            assert(t2 == 0);
        }
    }
    // combine: (h1 bi - h2 bi) + (t1 - t2) == (h1 bi + t1) - (h2 bi + t2)
    lemma_fsub_rearrange(fmul(h1, bi), fmul(h2, bi), t1, t2);
    assert(m1 == fadd(fmul(h1, bi), t1));
    assert(m2 == fadd(fmul(h2, bi), t2));
}

/// One coefficient of a product, through the head unfolding: the head of
/// the left factor times the matching coefficient of the right, plus the
/// shifted tail product.
proof fn lemma_pmul_head_coeff(a: Seq<nat>, b: Seq<nat>, idx: int)
    ensures
        coeff_at(pmul(a, b), idx) == fadd(
            fmul(coeff_at(a, 0), coeff_at(b, idx)),
            coeff_at(pshiftk(pmul(ctail(a), b), 1), idx),
        ),
{
    if a.len() == 0 {
        assert(pmul(ctail(a), b) =~= Seq::<nat>::empty());
        lemma_fmul_zero(coeff_at(b, idx));
        assert(fadd(0, 0) == 0) by {
            lemma_fadd_zero(0);
        }
    } else {
        lemma_coeff_at_padd(pscale(b, a[0]), pshiftk(pmul(ctail(a), b), 1), idx);
        if !(0 <= idx < b.len()) {
            lemma_fmul_zero(a[0]);
        }
    }
}

/// The product of the differences between a point and a list of values.
pub open spec fn prod_fsub(x: nat, ys: Seq<nat>) -> nat
    decreases ys.len(),
{
    if ys.len() == 0 {
        1
    } else {
        fmul(fsub(x, ys[0]), prod_fsub(x, ys.subrange(1, ys.len() as int)))
    }
}

/// The product grows multiplicatively when a value is appended.
pub proof fn lemma_prod_fsub_snoc(x: nat, ys: Seq<nat>, y: nat)
    ensures
        prod_fsub(x, ys.push(y)) == fmul(prod_fsub(x, ys), fsub(x, y)),
    decreases ys.len(),
{
    if ys.len() == 0 {
        let e = ys.push(y);
        assert(e.subrange(1, 1) =~= Seq::<nat>::empty());
        assert(prod_fsub(x, Seq::<nat>::empty()) == 1);
        assert(prod_fsub(x, e) == fmul(fsub(x, y), 1));
        lemma_fmul_one(fsub(x, y));
        lemma_fmul_comm(fsub(x, y), 1);
    } else {
        let ty = ys.subrange(1, ys.len() as int);
        assert(ys.push(y).subrange(1, ys.len() as int + 1) =~= ty.push(y));
        assert(ys.push(y)[0] == ys[0]);
        lemma_prod_fsub_snoc(x, ty, y);
        lemma_fmul_assoc(fsub(x, ys[0]), prod_fsub(x, ty), fsub(x, y));
    }
}

/// A reduced polynomial that vanishes at as many points as it has
/// coefficients, with a multiplicative inverse supplied for each prefix
/// product of point differences, is zero everywhere.
pub proof fn lemma_distinct_roots_zero(s: Seq<nat>, nodes: Seq<nat>, invs: Seq<nat>)
    requires
        reduced(s),
        1 <= s.len() <= nodes.len(),
        forall|k: int| 0 <= k < nodes.len() ==> (#[trigger] nodes[k]) < q_order(),
        forall|k: int| 0 <= k < nodes.len() ==> peval(s, #[trigger] nodes[k]) == 0,
        invs.len() == nodes.len(),
        forall|j: int|
            0 <= j < nodes.len() ==> fmul(#[trigger] invs[j], prod_fsub(nodes[j], nodes.take(j)))
                == 1,
    ensures
        pis_zero(s),
    decreases s.len(),
{
    if s.len() == 1 {
        assert(s.subrange(1, 1) =~= Seq::<nat>::empty());
        assert(peval(Seq::<nat>::empty(), nodes[0]) == 0);
        assert(peval(s, nodes[0]) == fadd(s[0], fmul(nodes[0], 0)));
        lemma_fmul_zero(nodes[0]);
        lemma_fadd_zero(s[0]);
        assert(s[0] == 0);
    } else {
        let x0 = nodes[0];
        let q = lemma_split_root(s, x0);
        let nodes2 = nodes.subrange(1, nodes.len() as int);
        let invs2 = Seq::new(nodes2.len(), |j: int| fmul(invs[j + 1], fsub(nodes2[j], x0)));
        // the quotient vanishes at the remaining nodes
        assert forall|i: int| 0 <= i < nodes2.len() implies peval(q, #[trigger] nodes2[i])
            == 0 by {
            let xi = nodes2[i];
            lemma_peval_coeffwise(pmul(q, lin_root(x0)), s, xi);
            lemma_peval_mul(q, lin_root(x0), xi);
            lemma_peval_lin(x0, xi);
            let pq = peval(q, xi);
            let f0 = fsub(xi, x0);
            let cp = prod_fsub(xi, nodes2.take(i));
            let u = invs[i + 1];
            assert(nodes.take(i + 2).subrange(1, i + 2) =~= nodes2.take(i + 1));
            assert(nodes.take(i + 2)[0] == x0);
            // the prefix product splits off its first factor
            assert(prod_fsub(xi, nodes.take(i + 2)) == fmul(f0, prod_fsub(xi, nodes2.take(i + 1))));
            assert(nodes2.take(i + 1) =~= nodes2.take(i).push(xi)) by {
                assert(nodes2.take(i + 1) =~= nodes2.take(i).push(nodes2[i]));
            }
            // careful: the hypothesis at position i+1 speaks of nodes.take(i+1)
            assert(nodes.take(i + 1).subrange(1, i + 1) =~= nodes2.take(i));
            assert(nodes.take(i + 1)[0] == x0);
            assert(prod_fsub(xi, nodes.take(i + 1)) == fmul(f0, cp)) by {
                assert(nodes[i + 1] == xi);
            }
            assert(fmul(u, fmul(f0, cp)) == 1) by {
                assert(nodes[i + 1] == xi);
            }
            // invert the single difference and cancel it
            lemma_peval_bound(q, xi);
            lemma_fmul_one(pq);
            lemma_fmul_assoc(f0, u, cp);
            lemma_fmul_comm(f0, u);
            lemma_fmul_assoc(u, f0, cp);
            lemma_fmul_assoc(pq, f0, fmul(u, cp));
            lemma_fmul_zero(fmul(u, cp));
            assert(fmul(f0, fmul(u, cp)) == 1) by {
                lemma_fmul_assoc(u, f0, cp);
                lemma_fmul_comm(u, f0);
                lemma_fmul_assoc(f0, u, cp);
            }
            assert(pq == fmul(pq, fmul(f0, fmul(u, cp))));
            assert(fmul(pq, fmul(f0, fmul(u, cp))) == fmul(fmul(pq, f0), fmul(u, cp)));
            assert(fmul(pq, f0) == 0);
        }
        // the inherited inverse witnesses fit the remaining nodes
        assert forall|j: int|
            0 <= j < nodes2.len() implies fmul(#[trigger] invs2[j], prod_fsub(
            nodes2[j],
            nodes2.take(j),
        )) == 1 by {
            let xj = nodes2[j];
            let u = invs[j + 1];
            let f0 = fsub(xj, x0);
            let cp = prod_fsub(xj, nodes2.take(j));
            assert(nodes.take(j + 1).subrange(1, j + 1) =~= nodes2.take(j));
            assert(nodes.take(j + 1)[0] == x0);
            assert(prod_fsub(xj, nodes.take(j + 1)) == fmul(f0, cp)) by {
                assert(nodes[j + 1] == xj);
            }
            assert(fmul(u, fmul(f0, cp)) == 1) by {
                assert(nodes[j + 1] == xj);
            }
            lemma_fmul_assoc(u, f0, cp);
        }
        lemma_distinct_roots_zero(q, nodes2, invs2);
        lemma_pis_zero_pmul(q, lin_root(x0));
        assert forall|i: int| 0 <= i < s.len() implies s[i] == 0 by {
            assert(coeff_at(pmul(q, lin_root(x0)), i) == coeff_at(s, i));
        }
    }
}

/// The value of the vanishing polynomial is the product of the differences
/// between the point and the indices.
pub proof fn lemma_vanishing_eval_prod(idxs: Seq<u64>, x: nat)
    requires
        x < q_order(),
    ensures
        peval(spec_vanishing(idxs), x) == prod_fsub(x, idxs.map_values(|v: u64| v as nat)),
    decreases idxs.len(),
{
    let mapped = idxs.map_values(|v: u64| v as nat);
    if idxs.len() == 0 {
        assert(spec_vanishing(idxs) =~= seq![1nat]);
        lemma_peval_const(1, x);
        assert(mapped =~= Seq::<nat>::empty());
    } else {
        let bl = idxs.drop_last();
        lemma_vanishing_eval_prod(bl, x);
        lemma_peval_mul(spec_vanishing(bl), lin_root(idxs.last() as nat), x);
        lemma_peval_lin(idxs.last() as nat, x);
        assert(bl.map_values(|v: u64| v as nat) =~= mapped.drop_last());
        assert(mapped =~= mapped.drop_last().push(idxs.last() as nat));
        lemma_prod_fsub_snoc(x, mapped.drop_last(), idxs.last() as nat);
    }
}

/// Off the listed indices the vanishing polynomial does not vanish: any
/// multiplicative inverse of the product of the differences witnesses it.
/// Such an inverse exists exactly when the point is none of the indices.
pub proof fn lemma_vanishing_nonroot(idxs: Seq<u64>, x: nat, w: nat)
    requires
        x < q_order(),
        fmul(w, prod_fsub(x, idxs.map_values(|v: u64| v as nat))) == 1,
    ensures
        peval(spec_vanishing(idxs), x) != 0,
{
    lemma_vanishing_eval_prod(idxs, x);
    if peval(spec_vanishing(idxs), x) == 0 {
        lemma_fmul_zero(w);
        assert(false);
    }
}

/// The linear polynomial `X - r` for a root `r`.
pub open spec fn lin_root(r: nat) -> Seq<nat> {
    seq![fneg(r), 1nat]
}

/// The monic polynomial vanishing exactly on the given indices, embedded
/// into the field: the product of `X - i` over the list.
pub open spec fn spec_vanishing(idxs: Seq<u64>) -> Seq<nat>
    decreases idxs.len(),
{
    if idxs.len() == 0 {
        seq![1nat]
    } else {
        pmul(spec_vanishing(idxs.drop_last()), lin_root(idxs.last() as nat))
    }
}

/// The vanishing polynomial of `n` indices has `n + 1` coefficients.
pub proof fn lemma_spec_vanishing_len(idxs: Seq<u64>)
    ensures
        spec_vanishing(idxs).len() == idxs.len() + 1,
    decreases idxs.len(),
{
    if idxs.len() > 0 {
        lemma_spec_vanishing_len(idxs.drop_last());
        lemma_pmul_len(spec_vanishing(idxs.drop_last()), lin_root(idxs.last() as nat));
    }
}

/// The value of `X - r` at a reduced point is the field difference.
pub proof fn lemma_peval_lin(rt: nat, x: nat)
    requires
        x < q_order(),
    ensures
        peval(lin_root(rt), x) == fsub(x, rt),
{
    let lin = lin_root(rt);
    let one = seq![1nat];
    assert(lin.subrange(1, 2) =~= one);
    assert(one.subrange(1, 1) =~= Seq::<nat>::empty());
    assert(peval(Seq::<nat>::empty(), x) == 0);
    lemma_fmul_zero(x);
    lemma_fadd_zero(1);
    assert(peval(one, x) == fadd(1, fmul(x, 0)));
    assert(peval(one, x) == 1);
    lemma_fmul_one(x);
    assert(peval(lin, x) == fadd(fneg(rt), fmul(x, peval(one, x))));
    // peval(lin, x) == fadd(fneg(rt), x) == fadd(x, fneg(rt)) == fsub(x, rt)
}

/// Every listed index, embedded into the field, is a root of the vanishing
/// polynomial of the list.
pub proof fn lemma_vanishing_root(idxs: Seq<u64>, k: int)
    requires
        0 <= k < idxs.len(),
    ensures
        peval(spec_vanishing(idxs), idxs[k] as nat) == 0,
    decreases idxs.len(),
{
    let x = idxs[k] as nat;
    let rt = idxs.last() as nat;
    let zp = spec_vanishing(idxs.drop_last());
    lemma_peval_mul(zp, lin_root(rt), x);
    lemma_peval_lin(rt, x);
    if k == idxs.len() - 1 {
        lemma_fsub_self(x);
        lemma_fmul_zero(peval(zp, x));
    } else {
        lemma_vanishing_root(idxs.drop_last(), k);
        lemma_fmul_zero(peval(lin_root(rt), x));
    }
}

/// The quotient by the vanishing polynomial is unique: it is monic, so two
/// reduced coefficient vectors whose products with it agree at every
/// position agree at every position themselves. No field structure is
/// needed, only the leading coefficient one.
pub proof fn lemma_quotient_unique(qc1: Seq<nat>, qc2: Seq<nat>, idxs: Seq<u64>)
    requires
        reduced(qc1),
        reduced(qc2),
        forall|idx: int|
            coeff_at(pmul(qc1, spec_vanishing(idxs)), idx) == coeff_at(
                pmul(qc2, spec_vanishing(idxs)),
                idx,
            ),
    ensures
        forall|idx: int| coeff_at(qc1, idx) == coeff_at(qc2, idx),
{
    let zv = spec_vanishing(idxs);
    lemma_vanishing_monic(idxs);
    let d = psub(qc1, qc2);
    assert(reduced(d)) by {
        assert forall|i: int| 0 <= i < d.len() implies d[i] < q_order() by {}
    }
    // the difference times z vanishes coefficient-wise
    assert forall|idx: int| coeff_at(pmul(d, zv), idx) == 0 by {
        lemma_pmul_psub(qc1, qc2, zv, idx);
        lemma_coeff_at_psub(pmul(qc1, zv), pmul(qc2, zv), idx);
        lemma_fsub_self(coeff_at(pmul(qc1, zv), idx));
    }
    assert forall|idx: int| coeff_at(qc1, idx) == coeff_at(qc2, idx) by {
        if coeff_at(qc1, idx) != coeff_at(qc2, idx) {
            lemma_coeff_at_psub(qc1, qc2, idx);
            lemma_fsub_nonzero(coeff_at(qc1, idx), coeff_at(qc2, idx));
            assert(d[idx] != 0);
            assert(!pis_zero(d));
            lemma_pdeg_nonzero(d);
            lemma_pdeg_lt(d);
            lemma_pdeg_lt(zv);
            lemma_pmul_len(d, zv);
            lemma_pmul_top(d, zv);
            lemma_fmul_one(d[pdeg(d) as int]);
            assert(pmul(d, zv)[(pdeg(d) + pdeg(zv)) as int] == d[pdeg(d) as int]);
            assert(coeff_at(pmul(d, zv), (pdeg(d) + pdeg(zv)) as int) != 0);
            assert(false);
        }
    }
}

/// Evaluation depends only on the coefficients seen through `coeff_at`.
pub proof fn lemma_peval_coeffwise(a: Seq<nat>, b: Seq<nat>, x: nat)
    requires
        forall|idx: int| coeff_at(a, idx) == coeff_at(b, idx),
    ensures
        peval(a, x) == peval(b, x),
    decreases a.len() + b.len(),
{
    if a.len() == 0 && b.len() == 0 {
    } else {
        assert forall|idx: int| coeff_at(ctail(a), idx) == coeff_at(ctail(b), idx) by {
            assert(coeff_at(a, idx + 1) == coeff_at(b, idx + 1));
        }
        lemma_peval_coeffwise(ctail(a), ctail(b), x);
        lemma_peval_head(a, x);
        lemma_peval_head(b, x);
        assert(coeff_at(a, 0) == coeff_at(b, 0));
    }
}

/// The vanishing polynomial is monic: its degree equals the number of
/// indices and its leading coefficient is one.
pub proof fn lemma_vanishing_monic(idxs: Seq<u64>)
    ensures
        spec_vanishing(idxs).len() == idxs.len() + 1,
        pdeg(spec_vanishing(idxs)) == idxs.len(),
        spec_vanishing(idxs)[idxs.len() as int] == 1,
        reduced(spec_vanishing(idxs)),
    decreases idxs.len(),
{
    lemma_spec_vanishing_len(idxs);
    let z = spec_vanishing(idxs);
    if idxs.len() == 0 {
        assert(z =~= seq![1nat]);
    } else {
        let prev = spec_vanishing(idxs.drop_last());
        let lin = lin_root(idxs.last() as nat);
        lemma_vanishing_monic(idxs.drop_last());
        assert(reduced(lin));
        assert(lin.last() == 1);
        assert(pdeg(lin) == 1);
        lemma_pmul_top(prev, lin);
        lemma_pmul_len(prev, lin);
        assert(z[(pdeg(prev) + pdeg(lin)) as int] == fmul(
            prev[pdeg(prev) as int],
            lin[pdeg(lin) as int],
        ));
        lemma_fmul_one(1);
        assert(z[idxs.len() as int] == 1);
        assert forall|i: int| 0 <= i < z.len() implies z[i] < q_order() by {
            lemma_pmul_reduced(prev, lin, i);
        }
        lemma_pdeg_char(z, idxs.len() as int);
    }
}

/// A dense univariate polynomial: coefficients in ascending degree. The zero
/// polynomial keeps at least one (zero) coefficient.
#[derive(Debug)]
pub struct Polynomial {
    pub coeffs: Vec<Fe>,
}

impl View for Polynomial {
    type V = Seq<nat>;

    open spec fn view(&self) -> Seq<nat> {
        self.coeffs@.map_values(|c: Fe| c.val())
    }
}

impl Polynomial {
    /// Structural invariant: at least one coefficient, all in canonical form.
    pub open spec fn wf(&self) -> bool {
        &&& self.coeffs.len() >= 1
        &&& forall|i: int| 0 <= i < self.coeffs.len() ==> (#[trigger] self.coeffs[i]).wf()
    }

    /// A well-formed polynomial has reduced coefficient values.
    pub proof fn lemma_wf_reduced(&self)
        requires
            self.wf(),
        ensures
            reduced(self@),
            self@.len() >= 1,
    {
        assert forall|i: int| 0 <= i < self@.len() implies self@[i] < q_order() by {
            assert(self.coeffs[i].wf());
        }
    }

    /// Wraps a coefficient vector directly.
    pub fn new(coeffs: Vec<Fe>) -> (r: Self)
        requires
            coeffs.len() >= 1,
            forall|i: int| 0 <= i < coeffs.len() ==> (#[trigger] coeffs[i]).wf(),
        ensures
            r.wf(),
            r@ == coeffs@.map_values(|c: Fe| c.val()),
    {
        Polynomial { coeffs }
    }

    /// The zero polynomial, represented as a single zero coefficient.
    pub fn zero() -> (r: Self)
        ensures
            r.wf(),
            r@ =~= seq![0nat],
            pis_zero(r@),
    {
        Polynomial { coeffs: vec![fe_zero()] }
    }

    /// A copy of the coefficient vector.
    pub fn get_coeffs(&self) -> (r: Vec<Fe>)
        ensures
            r@ == self.coeffs@,
    {
        let mut out: Vec<Fe> = Vec::new();
        let mut i: usize = 0;
        while i < self.coeffs.len()
            invariant
                i <= self.coeffs.len(),
                out@ =~= self.coeffs@.take(i as int),
            decreases self.coeffs.len() - i,
        {
            out.push(self.coeffs[i]);
            i = i + 1;
        }
        proof {
            assert(out@ =~= self.coeffs@);
        }
        out
    }

    /// Coefficient at position `i`, or zero past the end.
    fn coeff(&self, i: usize) -> (r: Fe)
        requires
            self.wf(),
        ensures
            r.wf(),
            r.val() == coeff_at(self@, i as int),
    {
        if i < self.coeffs.len() {
            self.coeffs[i]
        } else {
            fe_zero()
        }
    }

    /// Degree: the largest position with a nonzero coefficient, or zero.
    pub fn deg(&self) -> (r: usize)
        requires
            self.wf(),
        ensures
            r == pdeg(self@),
            r < self.coeffs.len(),
    {
        let n = self.coeffs.len();
        let mut i: usize = n;
        proof {
            assert(self@.take(n as int) =~= self@);
        }
        while i > 1
            invariant
                1 <= i <= n,
                n == self.coeffs.len(),
                self.wf(),
                pdeg(self@) == pdeg(self@.take(i as int)),
            decreases i,
        {
            if !fe_is_zero(&self.coeffs[i - 1]) {
                proof {
                    let t = self@.take(i as int);
                    assert(t.last() == self@[i - 1]);
                }
                return i - 1;
            }
            proof {
                let t = self@.take(i as int);
                assert(t.last() == self@[i - 1]);
                assert(t.drop_last() =~= self@.take(i as int - 1));
            }
            i = i - 1;
        }
        0
    }

    /// True exactly when every coefficient is zero.
    pub fn is_zero(&self) -> (r: bool)
        requires
            self.wf(),
        ensures
            r == pis_zero(self@),
    {
        let mut i: usize = 0;
        while i < self.coeffs.len()
            invariant
                i <= self.coeffs.len(),
                self.wf(),
                forall|j: int| 0 <= j < i ==> self@[j] == 0,
            decreases self.coeffs.len() - i,
        {
            if !fe_is_zero(&self.coeffs[i]) {
                proof {
                    assert(self@[i as int] != 0);
                }
                return false;
            }
            i = i + 1;
        }
        true
    }

    /// Coefficient-wise sum, padded to the longer operand.
    pub fn add(&self, rhs: &Self) -> (r: Self)
        requires
            self.wf(),
            rhs.wf(),
        ensures
            r.wf(),
            r@ == padd(self@, rhs@),
    {
        let n = if self.coeffs.len() >= rhs.coeffs.len() {
            self.coeffs.len()
        } else {
            rhs.coeffs.len()
        };
        let mut out: Vec<Fe> = Vec::new();
        let mut i: usize = 0;
        while i < n
            invariant
                i <= n,
                self.wf(),
                rhs.wf(),
                n == if self.coeffs.len() >= rhs.coeffs.len() {
                    self.coeffs.len()
                } else {
                    rhs.coeffs.len()
                },
                out@.len() == i,
                forall|j: int|
                    0 <= j < i ==> (#[trigger] out@[j]).wf() && out@[j].val() == fadd(
                        coeff_at(self@, j),
                        coeff_at(rhs@, j),
                    ),
            decreases n - i,
        {
            let a = self.coeff(i);
            let b = rhs.coeff(i);
            out.push(fe_add(&a, &b));
            i = i + 1;
        }
        let r = Polynomial { coeffs: out };
        proof {
            assert(r@ =~= padd(self@, rhs@));
        }
        r
    }

    /// Coefficient-wise difference, padded to the longer operand.
    pub fn sub(&self, rhs: &Self) -> (r: Self)
        requires
            self.wf(),
            rhs.wf(),
        ensures
            r.wf(),
            r@ == psub(self@, rhs@),
    {
        let n = if self.coeffs.len() >= rhs.coeffs.len() {
            self.coeffs.len()
        } else {
            rhs.coeffs.len()
        };
        let mut out: Vec<Fe> = Vec::new();
        let mut i: usize = 0;
        while i < n
            invariant
                i <= n,
                self.wf(),
                rhs.wf(),
                n == if self.coeffs.len() >= rhs.coeffs.len() {
                    self.coeffs.len()
                } else {
                    rhs.coeffs.len()
                },
                out@.len() == i,
                forall|j: int|
                    0 <= j < i ==> (#[trigger] out@[j]).wf() && out@[j].val() == fsub(
                        coeff_at(self@, j),
                        coeff_at(rhs@, j),
                    ),
            decreases n - i,
        {
            let a = self.coeff(i);
            let b = rhs.coeff(i);
            out.push(fe_sub(&a, &b));
            i = i + 1;
        }
        let r = Polynomial { coeffs: out };
        proof {
            assert(r@ =~= psub(self@, rhs@));
        }
        r
    }

    /// Coefficient-wise additive inverse.
    pub fn neg(&self) -> (r: Self)
        requires
            self.wf(),
        ensures
            r.wf(),
            r@ == pneg(self@),
    {
        let mut out: Vec<Fe> = Vec::new();
        let mut i: usize = 0;
        while i < self.coeffs.len()
            invariant
                i <= self.coeffs.len(),
                self.wf(),
                out@.len() == i,
                forall|j: int|
                    0 <= j < i ==> (#[trigger] out@[j]).wf() && out@[j].val() == fneg(self@[j]),
            decreases self.coeffs.len() - i,
        {
            out.push(fe_neg(&self.coeffs[i]));
            i = i + 1;
        }
        let r = Polynomial { coeffs: out };
        proof {
            assert(r@ =~= pneg(self@));
        }
        r
    }

    /// Schoolbook product. The degree of the product is the sum of the
    /// operand degrees whenever neither operand is the zero polynomial.
    pub fn mul(&self, rhs: &Self) -> (r: Self)
        requires
            self.wf(),
            rhs.wf(),
            self.coeffs.len() + rhs.coeffs.len() <= usize::MAX,
        ensures
            r.wf(),
            r@ == pmul(self@, rhs@),
            r@.len() == self@.len() + rhs@.len() - 1,
            !pis_zero(self@) && !pis_zero(rhs@) ==> pdeg(r@) == pdeg(self@) + pdeg(rhs@),
    {
        let la = self.coeffs.len();
        let lb = rhs.coeffs.len();
        let mut out: Vec<Fe> = Vec::new();
        let mut i: usize = la;
        proof {
            assert(self@.skip(la as int) =~= Seq::<nat>::empty());
            assert(pmul(self@.skip(la as int), rhs@) =~= Seq::<nat>::empty());
        }
        while i > 0
            invariant
                i <= la,
                la == self.coeffs.len(),
                lb == rhs.coeffs.len(),
                la >= 1,
                lb >= 1,
                la + lb <= usize::MAX,
                self.wf(),
                rhs.wf(),
                forall|j: int| 0 <= j < out@.len() ==> (#[trigger] out@[j]).wf(),
                vals(out@) == pmul(self@.skip(i as int), rhs@),
                out@.len() == if i == la {
                    0int
                } else {
                    (la - i) + lb - 1
                },
            decreases i,
        {
            i = i - 1;
            let ghost prev = vals(out@);
            let ghost shifted = pshiftk(prev, 1);
            // shift up by one and pad with zeros to at least the length of rhs
            let nlen = if lb >= out.len() + 1 {
                lb
            } else {
                out.len() + 1
            };
            let mut next: Vec<Fe> = Vec::new();
            let mut k: usize = 0;
            while k < nlen
                invariant
                    k <= nlen,
                    nlen >= out@.len() + 1,
                    forall|j: int| 0 <= j < out@.len() ==> (#[trigger] out@[j]).wf(),
                    prev == vals(out@),
                    shifted == pshiftk(prev, 1),
                    next@.len() == k,
                    forall|j: int| 0 <= j < next@.len() ==> (#[trigger] next@[j]).wf(),
                    forall|j: int|
                        0 <= j < next@.len() ==> (#[trigger] next@[j]).val() == coeff_at(
                            shifted,
                            j,
                        ),
                decreases nlen - k,
            {
                if k >= 1 && k - 1 < out.len() {
                    next.push(out[k - 1]);
                } else {
                    next.push(fe_zero());
                }
                k = k + 1;
            }
            let ghost padded = vals(next@);
            // add the scaled copy of rhs
            let mut j: usize = 0;
            while j < lb
                invariant
                    j <= lb,
                    lb == rhs.coeffs.len(),
                    la == self.coeffs.len(),
                    i < la,
                    self.wf(),
                    rhs.wf(),
                    next@.len() == padded.len(),
                    next@.len() >= lb,
                    forall|jj: int| 0 <= jj < next@.len() ==> (#[trigger] next@[jj]).wf(),
                    forall|jj: int|
                        j <= jj < next@.len() ==> (#[trigger] next@[jj]).val() == padded[jj],
                    forall|jj: int|
                        0 <= jj < j ==> (#[trigger] next@[jj]).val() == fadd(
                            fmul(self@[i as int], rhs@[jj]),
                            padded[jj],
                        ),
                decreases lb - j,
            {
                let t = fe_mul(&self.coeffs[i], &rhs.coeffs[j]);
                let s = fe_add(&t, &next[j]);
                next[j] = s;
                j = j + 1;
            }
            proof {
                let tgt = pmul(self@.skip(i as int), rhs@);
                assert(self@.skip(i as int)[0] == self@[i as int]);
                assert(self@.skip(i as int).subrange(
                    1,
                    self@.skip(i as int).len() as int,
                ) =~= self@.skip(i as int + 1));
                assert(tgt == padd(pscale(rhs@, self@[i as int]), shifted));
                assert forall|jj: int| 0 <= jj < vals(next@).len() implies vals(next@)[jj]
                    == coeff_at(tgt, jj) by {
                    lemma_coeff_at_padd(pscale(rhs@, self@[i as int]), shifted, jj);
                    if jj >= lb {
                        assert(coeff_at(shifted, jj) == padded[jj]);
                        assert(padded[jj] < q_order()) by {
                            assert(next@[jj].wf());
                        }
                        lemma_fadd_zero(padded[jj]);
                    }
                }
                assert(vals(next@).len() == tgt.len()) by {
                    lemma_pmul_len(self@.skip(i as int), rhs@);
                    if i + 1 < la {
                        lemma_pmul_len(self@.skip(i as int + 1), rhs@);
                    } else {
                        assert(self@.skip(i as int + 1).len() == 0);
                        assert(pmul(self@.skip(i as int + 1), rhs@) =~= Seq::<nat>::empty());
                    }
                }
                assert(vals(next@) =~= tgt);
            }
            out = next;
        }
        let r = Polynomial { coeffs: out };
        proof {
            assert(self@.skip(0) =~= self@);
            lemma_pmul_len(self@, rhs@);
        }
        // leading-coefficient witness: in a prime field the product of the
        // two leading coefficients is nonzero, which pins the degree
        if !self.is_zero() && !rhs.is_zero() {
            let da = self.deg();
            let db = rhs.deg();
            let top = fe_mul(&self.coeffs[da], &rhs.coeffs[db]);
            proof {
                self.lemma_wf_reduced();
                rhs.lemma_wf_reduced();
                lemma_pdeg_nonzero(self@);
                lemma_pdeg_nonzero(rhs@);
                assert(top.val() != 0);
                lemma_pmul_top(self@, rhs@);
                lemma_pdeg_char(r@, da + db);
            }
        }
        r
    }

    /// The monic polynomial whose roots are exactly the given indices
    /// embedded into the field: the product of `X - i` over the list.
    pub fn vanishing(openings: Vec<u64>) -> (r: Self)
        requires
            openings.len() + 2 <= usize::MAX,
        ensures
            r.wf(),
            r@ == spec_vanishing(openings@),
            r@.len() == openings@.len() + 1,
    {
        let mut z = Polynomial { coeffs: vec![fe_one()] };
        proof {
            assert(openings@.take(0) =~= Seq::<u64>::empty());
            assert(z@ =~= seq![1nat]);
        }
        let mut k: usize = 0;
        while k < openings.len()
            invariant
                k <= openings.len(),
                openings.len() + 2 <= usize::MAX,
                z.wf(),
                z@ == spec_vanishing(openings@.take(k as int)),
                z@.len() == k + 1,
            decreases openings.len() - k,
        {
            let m = fe_neg(&fe_from_u64(openings[k]));
            let lin = Polynomial { coeffs: vec![m, fe_one()] };
            proof {
                assert(lin.wf());
                assert(lin@ =~= lin_root(openings@[k as int] as nat));
            }
            let z2 = z.mul(&lin);
            proof {
                assert(openings@.take(k as int + 1).drop_last() =~= openings@.take(k as int));
                assert(openings@.take(k as int + 1).last() == openings@[k as int]);
            }
            z = z2;
            k = k + 1;
        }
        proof {
            assert(openings@.take(openings.len() as int) =~= openings@);
        }
        z
    }

    /// Lagrange interpolation: the polynomial of degree below the number of
    /// points that passes through every given (point, value) pair. The
    /// points must be pairwise distinct.
    pub fn from_points(points: &Vec<Fe>, evals: &Vec<Fe>) -> (r: Self)
        requires
            points.len() == evals.len(),
            points.len() + 2 <= usize::MAX,
            forall|i: int| 0 <= i < points.len() ==> (#[trigger] points[i]).wf(),
            forall|i: int| 0 <= i < evals.len() ==> (#[trigger] evals[i]).wf(),
            pairwise_distinct(vals(points@)),
        ensures
            r.wf(),
            r@.len() == if points.len() == 0 {
                1int
            } else {
                points.len() as int
            },
            forall|i: int|
                0 <= i < points.len() ==> #[trigger] peval(r@, vals(points@)[i]) == vals(
                    evals@,
                )[i],
    {
        let ghost xv = vals(points@);
        let ghost yv = vals(evals@);
        let n = points.len();
        if n == 0 {
            return Self::zero();
        }
        let mut accv: Vec<Fe> = Vec::new();
        while accv.len() < n
            invariant
                accv@.len() <= n,
                forall|j: int|
                    0 <= j < accv@.len() ==> (#[trigger] accv@[j]).wf() && accv@[j].val() == 0,
            decreases n - accv@.len(),
        {
            accv.push(fe_zero());
        }
        let mut acc = Polynomial { coeffs: accv };
        proof {
            assert(pis_zero(acc@));
            assert forall|k: int| 0 <= k < n implies #[trigger] peval(acc@, xv[k]) == 0 by {
                lemma_peval_zero(acc@, xv[k]);
            }
        }
        let mut i: usize = 0;
        while i < n
            invariant
                i <= n,
                n == points.len(),
                n == evals.len(),
                n + 2 <= usize::MAX,
                xv == vals(points@),
                yv == vals(evals@),
                forall|j: int| 0 <= j < points@.len() ==> (#[trigger] points@[j]).wf(),
                forall|j: int| 0 <= j < evals@.len() ==> (#[trigger] evals@[j]).wf(),
                pairwise_distinct(xv),
                acc.wf(),
                acc@.len() == n,
                forall|k: int|
                    0 <= k < n ==> #[trigger] peval(acc@, xv[k]) == if k < i {
                        yv[k]
                    } else {
                        0nat
                    },
            decreases n - i,
        {
            // numerator: the product of (X - x_j) over j != i, and the
            // running denominator product (x_i - x_j)
            let mut ni = Polynomial { coeffs: vec![fe_one()] };
            let mut d = fe_one();
            proof {
                assert(ni@ =~= seq![1nat]);
                lemma_peval_const(1, xv[i as int]);
            }
            let mut j: usize = 0;
            while j < n
                invariant
                    j <= n,
                    i < n,
                    n == points.len(),
                    n + 2 <= usize::MAX,
                    xv == vals(points@),
                    forall|jj: int| 0 <= jj < points@.len() ==> (#[trigger] points@[jj]).wf(),
                    pairwise_distinct(xv),
                    ni.wf(),
                    d.wf(),
                    d.val() != 0,
                    ni@.len() == 1 + if j <= i {
                        j as int
                    } else {
                        j - 1
                    },
                    peval(ni@, xv[i as int]) == d.val(),
                    forall|k: int|
                        0 <= k < j && k != i ==> #[trigger] peval(ni@, xv[k]) == 0,
                decreases n - j,
            {
                if j != i {
                    let m = fe_neg(&points[j]);
                    let lin = Polynomial { coeffs: vec![m, fe_one()] };
                    proof {
                        assert(lin.wf());
                        assert(lin@ =~= lin_root(xv[j as int]));
                    }
                    let ni2 = ni.mul(&lin);
                    let diff = fe_sub(&points[i], &points[j]);
                    let d2 = fe_mul(&d, &diff);
                    proof {
                        assert(xv[i as int] != xv[j as int]);
                        lemma_fsub_nonzero(xv[i as int], xv[j as int]);
                        assert(diff.val() != 0);
                        lemma_peval_mul(ni@, lin@, xv[i as int]);
                        lemma_peval_lin(xv[j as int], xv[i as int]);
                        assert forall|k: int|
                            0 <= k < j + 1 && k != i implies #[trigger] peval(ni2@, xv[k])
                            == 0 by {
                            lemma_peval_mul(ni@, lin@, xv[k]);
                            lemma_peval_lin(xv[j as int], xv[k]);
                            if k < j {
                                lemma_fmul_zero(peval(lin@, xv[k]));
                            } else {
                                lemma_fsub_self(xv[k]);
                                lemma_fmul_zero(peval(ni@, xv[k]));
                            }
                        }
                    }
                    ni = ni2;
                    d = d2;
                }
                j = j + 1;
            }
            // scale the numerator by y_i over the denominator
            let u = fe_inv(&d);
            let c = fe_mul(&evals[i], &u);
            let cpoly = Polynomial { coeffs: vec![c] };
            proof {
                assert(cpoly@ =~= seq![c.val()]);
            }
            let scaled = ni.mul(&cpoly);
            let acc2 = acc.add(&scaled);
            proof {
                let xi = xv[i as int];
                let yi = yv[i as int];
                assert forall|k: int|
                    0 <= k < n implies #[trigger] peval(acc2@, xv[k]) == (if k < i + 1 {
                    yv[k]
                } else {
                    0nat
                }) by {
                    let xk = xv[k];
                    lemma_peval_add(acc@, scaled@, xk);
                    lemma_peval_mul(ni@, cpoly@, xk);
                    lemma_peval_const(c.val(), xk);
                    assert(peval(cpoly@, xk) == c.val());
                    if k == i {
                        // d (y_i u) == y_i (u d) == y_i
                        assert(peval(ni@, xk) == d.val());
                        lemma_fmul_comm(d.val(), fmul(yi, u.val()));
                        lemma_fmul_assoc(yi, u.val(), d.val());
                        lemma_fmul_one(yi);
                        assert(fmul(u.val(), d.val()) == 1);
                        assert(peval(scaled@, xk) == yi);
                        lemma_fadd_zero(yi);
                    } else {
                        assert(peval(ni@, xk) == 0);
                        lemma_fmul_zero(c.val());
                        assert(peval(scaled@, xk) == 0);
                        if k < i {
                            lemma_fadd_zero(yv[k]);
                        } else {
                            assert(fadd(0, 0) == 0);
                        }
                    }
                }
            }
            acc = acc2;
            i = i + 1;
        }
        acc
    }

    /// Euclidean division with remainder: on success `f == q g + r` holds
    /// coefficient-wise, with the remainder zero or of degree below the
    /// divisor's degree. Fails exactly when the divisor is the zero
    /// polynomial.
    pub fn div_euclid(f: &Self, g: &Self) -> (res: Result<(Self, Self), Error>)
        requires
            f.wf(),
            g.wf(),
        ensures
            match res {
                Ok(qr) => {
                    &&& qr.0.wf()
                    &&& qr.1.wf()
                    &&& !pis_zero(g@)
                    &&& qr.1@.len() == f@.len()
                    &&& forall|idx: int|
                        coeff_at(padd(pmul(qr.0@, g@), qr.1@), idx) == coeff_at(f@, idx)
                    &&& pis_zero(qr.1@) || pdeg(qr.1@) < pdeg(g@)
                },
                Err(e) => e == Error::DivisionByZero && pis_zero(g@),
            },
    {
        if g.is_zero() {
            return Err(Error::DivisionByZero);
        }
        let df = f.deg();
        let dg = g.deg();
        proof {
            f.lemma_wf_reduced();
            g.lemma_wf_reduced();
            lemma_pdeg_nonzero(g@);
        }
        if df < dg {
            let q = Self::zero();
            let r = Polynomial { coeffs: f.get_coeffs() };
            proof {
                assert(r@ =~= f@);
                assert(pis_zero(q@));
                lemma_pis_zero_pmul(q@, g@);
                assert forall|idx: int|
                    coeff_at(padd(pmul(q@, g@), r@), idx) == coeff_at(f@, idx) by {
                    lemma_coeff_at_padd(pmul(q@, g@), r@, idx);
                    assert(coeff_at(pmul(q@, g@), idx) == 0);
                    if 0 <= idx < f@.len() {
                        lemma_fadd_zero(f@[idx]);
                    }
                }
            }
            return Ok((q, r));
        }
        let u = fe_inv(&g.coeffs[dg]);
        let mut h = f.get_coeffs();
        let mut q: Vec<Fe> = Vec::new();
        let qlen = df - dg + 1;
        while q.len() < qlen
            invariant
                q@.len() <= qlen,
                forall|j: int|
                    0 <= j < q@.len() ==> (#[trigger] q@[j]).wf() && q@[j].val() == 0,
            decreases qlen - q@.len(),
        {
            q.push(fe_zero());
        }
        proof {
            assert(pis_zero(vals(q@)));
            lemma_pis_zero_pmul(vals(q@), g@);
            assert(vals(h@) =~= f@);
            assert forall|idx: int|
                coeff_at(padd(pmul(vals(q@), g@), vals(h@)), idx) == coeff_at(f@, idx) by {
                lemma_coeff_at_padd(pmul(vals(q@), g@), vals(h@), idx);
                assert(coeff_at(pmul(vals(q@), g@), idx) == 0);
                if 0 <= idx < f@.len() {
                    lemma_fadd_zero(f@[idx]);
                }
            }
            assert forall|idx: int|
                df < idx < h@.len() implies (#[trigger] h@[idx]).val() == 0 by {
                lemma_pdeg_zero_above(f@, idx);
            }
        }
        let mut step = qlen;
        while step > 0
            invariant
                1 <= step <= qlen || step == 0,
                qlen == df - dg + 1,
                f.wf(),
                g.wf(),
                dg == pdeg(g@),
                dg < g.coeffs.len(),
                df < f.coeffs.len(),
                dg <= df,
                g@[dg as int] != 0,
                reduced(g@),
                u.wf(),
                fmul(u.val(), g@[dg as int]) == 1,
                h@.len() == f.coeffs.len(),
                q@.len() == qlen,
                forall|j: int| 0 <= j < h@.len() ==> (#[trigger] h@[j]).wf(),
                forall|j: int| 0 <= j < q@.len() ==> (#[trigger] q@[j]).wf(),
                forall|j: int| 0 <= j < step ==> (#[trigger] q@[j]).val() == 0,
                forall|idx: int|
                    dg + step - 1 < idx < h@.len() ==> (#[trigger] h@[idx]).val() == 0,
                forall|idx: int|
                    coeff_at(padd(pmul(vals(q@), g@), vals(h@)), idx) == coeff_at(f@, idx),
            decreases step,
        {
            let k = dg + step - 1;
            let c = fe_mul(&h[k], &u);
            let ghost q0 = vals(q@);
            let ghost h0 = vals(h@);
            let ghost hk = h@[k as int].val();
            q[k - dg] = c;
            let mut j: usize = 0;
            while j <= dg
                invariant
                    j <= dg + 1,
                    dg <= k,
                    k < h@.len(),
                    dg < g.coeffs.len(),
                    g.wf(),
                    c.wf(),
                    h@.len() == h0.len(),
                    forall|jj: int| 0 <= jj < h@.len() ==> (#[trigger] h@[jj]).wf(),
                    forall|idx: int|
                        k - dg <= idx < k - dg + j ==> (#[trigger] h@[idx]).val() == fsub(
                            h0[idx],
                            fmul(c.val(), g@[idx - (k - dg)]),
                        ),
                    forall|idx: int|
                        0 <= idx < h@.len() && !(k - dg <= idx < k - dg + j) ==> (
                        #[trigger] h@[idx]).val() == h0[idx],
                decreases dg + 1 - j,
            {
                let t = fe_mul(&c, &g.coeffs[j]);
                let hn = fe_sub(&h[k - dg + j], &t);
                h[k - dg + j] = hn;
                j = j + 1;
            }
            proof {
                let p = k - dg;
                let qv = vals(q@);
                let hv = vals(h@);
                let sh = pshiftk(pscale(g@, c.val()), p as nat);
                assert(qv =~= q0.update(p as int, c.val()));
                assert(q0[p as int] == 0);
                // the subtracted window, seen through coefficients
                assert forall|idx: int|
                    coeff_at(padd(pmul(qv, g@), hv), idx) == coeff_at(f@, idx) by {
                    lemma_pmul_update(q0, g@, p as int, c.val(), idx);
                    lemma_coeff_at_padd(pmul(qv, g@), hv, idx);
                    lemma_coeff_at_padd(pmul(q0, g@), h0, idx);
                    lemma_pmul_reduced(q0, g@, idx);
                    let aa = coeff_at(pmul(q0, g@), idx);
                    let ss = coeff_at(sh, idx);
                    let hh = coeff_at(h0, idx);
                    if p <= idx <= p + dg {
                        assert(ss == fmul(c.val(), g@[idx - p]));
                        assert(coeff_at(hv, idx) == fsub(hh, ss));
                        assert(hh < q_order());
                        lemma_fadd_fsub_cancel(aa, hh, ss);
                    } else {
                        assert(coeff_at(hv, idx) == hh) by {
                            if 0 <= idx < h0.len() {
                            }
                        }
                        assert(ss == 0) by {
                            if p + dg < idx < p + g@.len() {
                                lemma_pdeg_zero_above(g@, idx - p);
                                lemma_fmul_zero(c.val());
                            }
                        }
                        lemma_fadd_zero(aa);
                    }
                }
                // the freshly processed leading position is cleared
                assert(hv[k as int] == 0) by {
                    assert(hv[k as int] == fsub(hk, fmul(c.val(), g@[dg as int])));
                    lemma_fmul_assoc(hk, u.val(), g@[dg as int]);
                    assert(hk < q_order());
                    lemma_fmul_one(hk);
                    assert(fmul(c.val(), g@[dg as int]) == hk);
                    lemma_fsub_self(hk);
                }
            }
            step = step - 1;
        }
        let qp = Polynomial { coeffs: q };
        let rp = Polynomial { coeffs: h };
        proof {
            if !pis_zero(rp@) {
                lemma_pdeg_nonzero(rp@);
                if pdeg(rp@) >= dg {
                    assert(h@[pdeg(rp@) as int].val() == 0);
                    assert(false);
                }
            }
        }
        Ok((qp, rp))
    }

    /// Horner evaluation at a point.
    pub fn eval(&self, pt: Fe) -> (r: Fe)
        requires
            self.wf(),
            pt.wf(),
        ensures
            r.wf(),
            r.val() == peval(self@, pt.val()),
    {
        let mut acc = fe_zero();
        let mut i = self.coeffs.len();
        proof {
            assert(self@.skip(i as int) =~= Seq::<nat>::empty());
        }
        while i > 0
            invariant
                i <= self.coeffs.len(),
                self.wf(),
                pt.wf(),
                acc.wf(),
                acc.val() == peval(self@.skip(i as int), pt.val()),
            decreases i,
        {
            let m = fe_mul(&pt, &acc);
            acc = fe_add(&self.coeffs[i - 1], &m);
            proof {
                let s = self@.skip(i as int - 1);
                assert(s[0] == self@[i - 1]);
                assert(s.subrange(1, s.len() as int) =~= self@.skip(i as int));
            }
            i = i - 1;
        }
        proof {
            assert(self@.skip(0) =~= self@);
        }
        acc
    }
}

} // verus!
