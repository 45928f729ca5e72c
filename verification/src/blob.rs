//! The blob prover: public parameters from a mock trusted setup, the blob
//! polynomial interpolating the data, the commitment to it, and the
//! multi-open proof. The mathematical model of a group element is its
//! discrete logarithm, so the contracts state exactly which scalar stands
//! behind every returned point.

use vstd::prelude::*;

use halo2curves::bn256::{G1Affine, G1, G2};

use crate::field::{
    fadd, fmul, fpow, fe_from_u64, fe_inv, fe_mul, fe_one, fe_root_of_unity, fe_sub, fe_zero,
    fe_pow, lemma_fadd_sub_cancel, lemma_fadd_zero, lemma_fmul_comm, lemma_fmul_one,
    lemma_fmul_zero, lemma_fpow_unfold, lemma_fpow_zero, lemma_fsub_add_cancel, lemma_fsub_self,
    lemma_fsub_nonzero, lemma_powers_distinct, lemma_scaled_root_order, q_order,
    root_of_unity_val, two_adicity, Fe,
};
use crate::group::{
    g1_add, g1_dlog, g1_dlogs, g1_generator, g1_identity, g1_scalar_mul, g1_to_affine, g1a_dlog,
    g2_dlog, g2_generator, g2_scalar_mul, lemma_msm_powers, msm_val,
};
use crate::poly::{
    coeff_at, lemma_coeff_at_padd, lemma_coeff_at_psub, lemma_distinct_roots_zero, lemma_pdeg_lt,
    lemma_pdeg_nonzero, lemma_pdeg_zero_above, lemma_pdeg_zero_tail, lemma_peval_add,
    lemma_peval_bound, lemma_peval_coeffwise, lemma_peval_mul, lemma_peval_trim,
    lemma_peval_zero, lemma_pmul_len, lemma_pmul_reduced, lemma_pmul_top, lemma_vanishing_monic,
    lemma_vanishing_root, padd, pairwise_distinct, pdeg, peval, pis_zero, pmul, prod_fsub, psub,
    reduced, spec_vanishing, vals, Polynomial,
};
use crate::Error;

verus! {

use vstd::arithmetic::power2::*;
use vstd::bits::*;
use vstd::set_lib::*;

/// Public parameters (the structured reference string) of the commitment
/// scheme. The ghost fields carry the mathematical content: the secret
/// scalar behind the bases, the generator of the evaluation domain, and the
/// Lagrange basis polynomials behind the committed basis.
#[allow(non_camel_case_types)]
#[allow(non_snake_case)]
pub struct pp {
    pub K: u32,
    pub ptau_g1: Vec<G1>,
    pub ptau_g2: Vec<G2>,
    pub ptau_lis: Vec<G1>,
    pub tau: Ghost<nat>,
    pub omega: Ghost<nat>,
    pub lis: Ghost<Seq<Seq<nat>>>,
}

impl pp {
    /// Size of the evaluation domain.
    pub open spec fn n(&self) -> nat {
        pow2(self.K as nat)
    }

    /// Maximum number of openings supported.
    pub open spec fn m(&self) -> int {
        self.ptau_g2.len() - 1
    }

    /// The reference string is well formed: both bases hold the powers of
    /// the secret scalar, the domain generator is a primitive root of unity
    /// of the domain order, and the committed Lagrange basis elements are
    /// the values at the secret scalar of polynomials that are one at their
    /// own domain point and zero at every other.
    pub open spec fn wf(&self) -> bool {
        &&& self.K <= two_adicity()
        &&& self.tau@ < q_order()
        &&& self.omega@ < q_order()
        &&& self.ptau_g1.len() == self.n()
        &&& self.ptau_g2.len() >= 1
        &&& self.ptau_lis.len() == self.n()
        &&& forall|i: int|
            0 <= i < self.ptau_g1.len() ==> g1_dlog(#[trigger] self.ptau_g1[i]) == fpow(
                self.tau@,
                i as nat,
            )
        &&& forall|i: int|
            0 <= i < self.ptau_g2.len() ==> g2_dlog(#[trigger] self.ptau_g2[i]) == fpow(
                self.tau@,
                i as nat,
            )
        &&& self.omega@ == fpow(root_of_unity_val(), pow2((two_adicity() - self.K) as nat))
        &&& fpow(self.omega@, self.n()) == 1
        &&& forall|d: nat| 0 < d < self.n() ==> #[trigger] fpow(self.omega@, d) != 1
        &&& self.lis@.len() == self.n()
        &&& forall|i: int| 0 <= i < self.lis@.len() ==> (#[trigger] self.lis@[i]).len() == self.n()
        &&& forall|i: int|
            0 <= i < self.ptau_lis.len() ==> g1_dlog(#[trigger] self.ptau_lis[i]) == peval(
                self.lis@[i],
                self.tau@,
            )
        &&& forall|i: int, j: int|
            0 <= i < self.lis@.len() && 0 <= j < self.lis@.len() ==> #[trigger] peval(
                self.lis@[i],
                fpow(self.omega@, j as nat),
            ) == if i == j {
                1nat
            } else {
                0nat
            }
    }
}

/// The record handed to the external verifier: the commitment, the opened
/// positions and values, the quotient commitment, and the coefficients of
/// the vanishing and interpolating polynomials.
pub struct CircuitInputs {
    pub p_bar: G1Affine,
    pub open_idxs: Vec<Fe>,
    pub open_vals: Vec<Fe>,
    pub q_bar: G1Affine,
    pub z_coeffs: Vec<Fe>,
    pub r_coeffs: Vec<Fe>,
}

/// A data vector of length `2^K` together with the polynomial that
/// interpolates it over the nodes recorded in the ghost field.
pub struct Blob {
    pub pp: pp,
    pub data: Vec<Fe>,
    pub p: Polynomial,
    pub nodes: Ghost<Seq<nat>>,
}

/// An opening request is valid when it has no more indices than the setup
/// supports, every index is inside the domain, and no index repeats.
pub open spec fn valid_openings(n: nat, m: int, idxs: Seq<u64>) -> bool {
    &&& idxs.len() <= m
    &&& forall|k: int| 0 <= k < idxs.len() ==> (#[trigger] idxs[k]) < n
    &&& forall|k1: int, k2: int| 0 <= k1 < k2 < idxs.len() ==> idxs[k1] != idxs[k2]
}

/// The polynomial agrees with the stored data at the integer-cast opening
/// nodes: opening the listed indices claims exactly these values.
pub open spec fn open_consistent(p: Seq<nat>, data: Seq<Fe>, idxs: Seq<u64>) -> bool {
    forall|k: int|
        0 <= k < idxs.len() ==> #[trigger] peval(p, idxs[k] as nat) == data[idxs[k] as int].val()
}

/// Names the quotient behind a returned opening proof: its coefficients
/// multiply the vanishing polynomial back to `p - r` exactly, and the
/// committed point is its value at the secret scalar. The vanishing
/// polynomial is monic, so such a quotient is unique; that is
/// `lemma_quotient_unique` in the polynomial module.
pub open spec fn quotient_witness(
    qc: Seq<nat>,
    p: Seq<nat>,
    r: Seq<nat>,
    idxs: Seq<u64>,
    tau: nat,
    q_bar: G1Affine,
) -> bool {
    &&& reduced(qc)
    &&& forall|idx: int| coeff_at(pmul(qc, spec_vanishing(idxs)), idx) == coeff_at(psub(p, r), idx)
    &&& g1a_dlog(q_bar) == peval(qc, tau)
}

/// A zero Euclidean remainder means the blob polynomial agrees with the
/// data at every opened node.
proof fn lemma_divisible_consistent(
    p: Seq<nat>,
    data: Seq<Fe>,
    idxs: Seq<u64>,
    qv: Seq<nat>,
    remv: Seq<nat>,
    rv: Seq<nat>,
)
    requires
        pis_zero(remv),
        forall|k: int| 0 <= k < data.len() ==> (#[trigger] data[k]).wf(),
        forall|k: int| 0 <= k < idxs.len() ==> (#[trigger] idxs[k]) < data.len(),
        forall|idx: int|
            coeff_at(padd(padd(pmul(qv, spec_vanishing(idxs)), remv), rv), idx) == coeff_at(
                p,
                idx,
            ),
        forall|k: int|
            0 <= k < idxs.len() ==> #[trigger] peval(rv, idxs[k] as nat) == data[
                idxs[k] as int
            ].val(),
    ensures
        open_consistent(p, data, idxs),
{
    let zv = spec_vanishing(idxs);
    assert forall|k: int|
        0 <= k < idxs.len() implies #[trigger] peval(p, idxs[k] as nat) == data[
        idxs[k] as int
    ].val() by {
        let xk = idxs[k] as nat;
        lemma_peval_coeffwise(padd(padd(pmul(qv, zv), remv), rv), p, xk);
        lemma_peval_add(padd(pmul(qv, zv), remv), rv, xk);
        lemma_peval_add(pmul(qv, zv), remv, xk);
        lemma_peval_zero(remv, xk);
        lemma_peval_mul(qv, zv, xk);
        lemma_vanishing_root(idxs, k);
        lemma_fmul_zero(peval(qv, xk));
        lemma_fadd_zero(0);
        lemma_fadd_zero(data[idxs[k] as int].val());
    }
}

/// For each node, a multiplicative inverse of the product of its
/// differences with the earlier nodes. The products are nonzero because
/// the nodes are pairwise distinct.
fn node_diff_invs(nodes_v: &Vec<Fe>) -> (invs: Vec<Fe>)
    requires
        forall|kk: int| 0 <= kk < nodes_v@.len() ==> (#[trigger] nodes_v@[kk]).wf(),
        pairwise_distinct(vals(nodes_v@)),
    ensures
        invs@.len() == nodes_v@.len(),
        forall|jj: int|
            0 <= jj < invs@.len() ==> (#[trigger] invs@[jj]).wf() && fmul(
                invs@[jj].val(),
                prod_fsub(vals(nodes_v@)[jj], vals(nodes_v@).take(jj)),
            ) == 1,
{
    let tlen = nodes_v.len();
    let mut invs_v: Vec<Fe> = Vec::new();
    let mut j: usize = 0;
    while j < tlen
        invariant
            j <= tlen,
            tlen == nodes_v@.len(),
            forall|kk: int| 0 <= kk < tlen ==> (#[trigger] nodes_v@[kk]).wf(),
            pairwise_distinct(vals(nodes_v@)),
            invs_v@.len() == j,
            forall|jj: int|
                0 <= jj < j ==> (#[trigger] invs_v@[jj]).wf() && fmul(
                    invs_v@[jj].val(),
                    prod_fsub(vals(nodes_v@)[jj], vals(nodes_v@).take(jj)),
                ) == 1,
        decreases tlen - j,
    {
        let mut acc = fe_one();
        let mut k = j;
        proof {
            assert(vals(nodes_v@).take(j as int).skip(j as int) =~= Seq::<nat>::empty());
            assert(prod_fsub(vals(nodes_v@)[j as int], Seq::<nat>::empty()) == 1);
        }
        while k > 0
            invariant
                k <= j,
                j < tlen,
                tlen == nodes_v@.len(),
                forall|kk: int| 0 <= kk < tlen ==> (#[trigger] nodes_v@[kk]).wf(),
                pairwise_distinct(vals(nodes_v@)),
                acc.wf(),
                acc.val() != 0,
                acc.val() == prod_fsub(
                    vals(nodes_v@)[j as int],
                    vals(nodes_v@).take(j as int).skip(k as int),
                ),
            decreases k,
        {
            k = k - 1;
            let dfe = fe_sub(&nodes_v[j], &nodes_v[k]);
            proof {
                assert(vals(nodes_v@)[k as int] != vals(nodes_v@)[j as int]);
                lemma_fsub_nonzero(vals(nodes_v@)[j as int], vals(nodes_v@)[k as int]);
                let pref = vals(nodes_v@).take(j as int);
                assert(pref.skip(k as int)[0] == vals(nodes_v@)[k as int]);
                assert(pref.skip(k as int).subrange(1, pref.skip(k as int).len() as int)
                    =~= pref.skip(k as int + 1));
            }
            let acc2 = fe_mul(&dfe, &acc);
            acc = acc2;
        }
        proof {
            assert(vals(nodes_v@).take(j as int).skip(0) =~= vals(nodes_v@).take(j as int));
        }
        let u = fe_inv(&acc);
        invs_v.push(u);
        j = j + 1;
    }
    invs_v
}

/// The quotient returned by the division has degree below the length of
/// the dividend, because the divisor is monic.
proof fn lemma_quotient_degree(idxs: Seq<u64>, qv: Seq<nat>, remv: Seq<nat>, diffv: Seq<nat>)
    requires
        qv.len() >= 1,
        diffv.len() >= 1,
        reduced(qv),
        pis_zero(remv),
        forall|idx: int|
            coeff_at(padd(pmul(qv, spec_vanishing(idxs)), remv), idx) == coeff_at(diffv, idx),
    ensures
        pdeg(qv) < diffv.len(),
{
    let zv = spec_vanishing(idxs);
    lemma_vanishing_monic(idxs);
    lemma_pdeg_lt(diffv);
    if !pis_zero(qv) {
        lemma_pdeg_nonzero(qv);
        lemma_pdeg_lt(qv);
        lemma_pdeg_lt(zv);
        lemma_pmul_len(qv, zv);
        let dq = pdeg(qv) as int;
        let dz = pdeg(zv) as int;
        lemma_pmul_top(qv, zv);
        lemma_fmul_one(qv[dq]);
        assert(pmul(qv, zv)[dq + dz] == qv[dq]);
        if dq + dz > pdeg(diffv) {
            lemma_coeff_at_padd(pmul(qv, zv), remv, dq + dz);
            if dq + dz < diffv.len() {
                lemma_pdeg_zero_above(diffv, dq + dz);
            }
            assert(coeff_at(remv, dq + dz) == 0);
            lemma_fadd_zero(qv[dq]);
            assert(coeff_at(padd(pmul(qv, zv), remv), dq + dz) == coeff_at(diffv, dq + dz));
            assert(false);
        }
    } else {
        lemma_pdeg_zero_tail(qv);
    }
}

/// Packaging of the success facts: with a zero remainder the blob agrees
/// with the data at the nodes, the committed point names the exact
/// quotient, and the division identity holds at the secret scalar.
proof fn lemma_open_ok(
    p: Seq<nat>,
    data: Seq<Fe>,
    idxs: Seq<u64>,
    qv: Seq<nat>,
    remv: Seq<nat>,
    rv: Seq<nat>,
    tau: nat,
    q_bar: G1Affine,
)
    requires
        pis_zero(remv),
        reduced(qv),
        forall|k: int| 0 <= k < data.len() ==> (#[trigger] data[k]).wf(),
        forall|k: int| 0 <= k < idxs.len() ==> (#[trigger] idxs[k]) < data.len(),
        forall|idx: int|
            coeff_at(padd(padd(pmul(qv, spec_vanishing(idxs)), remv), rv), idx) == coeff_at(
                p,
                idx,
            ),
        forall|k: int|
            0 <= k < idxs.len() ==> #[trigger] peval(rv, idxs[k] as nat) == data[
                idxs[k] as int
            ].val(),
        g1a_dlog(q_bar) == peval(qv, tau),
    ensures
        open_consistent(p, data, idxs),
        quotient_witness(qv, p, rv, idxs, tau, q_bar),
        fadd(fmul(g1a_dlog(q_bar), peval(spec_vanishing(idxs), tau)), peval(rv, tau)) == peval(
            p,
            tau,
        ),
{
    let zv = spec_vanishing(idxs);
    lemma_divisible_consistent(p, data, idxs, qv, remv, rv);
    // the committed point names the exact quotient
    assert forall|idx: int|
        coeff_at(pmul(qv, zv), idx) == coeff_at(psub(p, rv), idx) by {
        lemma_coeff_at_padd(pmul(qv, zv), remv, idx);
        lemma_pmul_reduced(qv, zv, idx);
        lemma_fadd_zero(coeff_at(pmul(qv, zv), idx));
        assert(coeff_at(remv, idx) == 0);
        lemma_coeff_at_padd(padd(pmul(qv, zv), remv), rv, idx);
        lemma_fadd_sub_cancel(coeff_at(pmul(qv, zv), idx), coeff_at(rv, idx));
        lemma_coeff_at_psub(p, rv, idx);
    }
    // the division identity at the secret scalar
    lemma_peval_coeffwise(padd(padd(pmul(qv, zv), remv), rv), p, tau);
    lemma_peval_add(padd(pmul(qv, zv), remv), rv, tau);
    lemma_peval_add(pmul(qv, zv), remv, tau);
    lemma_peval_zero(remv, tau);
    lemma_peval_mul(qv, zv, tau);
    lemma_peval_bound(pmul(qv, zv), tau);
    lemma_fadd_zero(peval(pmul(qv, zv), tau));
}

/// A nonzero Euclidean remainder refutes agreement of the blob polynomial
/// with the data at the opened nodes: were they to agree, the remainder
/// would vanish at every node and, having degree below their number, would
/// be zero everywhere.
proof fn lemma_nondivisible_inconsistent(
    p: Seq<nat>,
    data: Seq<Fe>,
    idxs: Seq<u64>,
    qv: Seq<nat>,
    remv: Seq<nat>,
    rv: Seq<nat>,
    nodes: Seq<nat>,
    invs: Seq<nat>,
)
    requires
        idxs.len() >= 1,
        nodes.len() == idxs.len(),
        invs.len() == idxs.len(),
        forall|k: int| 0 <= k < idxs.len() ==> (#[trigger] nodes[k]) == idxs[k] as nat,
        forall|k: int| 0 <= k < idxs.len() ==> (#[trigger] idxs[k]) < data.len(),
        forall|k: int| 0 <= k < data.len() ==> (#[trigger] data[k]).wf(),
        reduced(remv),
        remv.len() >= idxs.len(),
        !pis_zero(remv),
        pdeg(remv) < idxs.len(),
        forall|idx: int|
            coeff_at(padd(padd(pmul(qv, spec_vanishing(idxs)), remv), rv), idx) == coeff_at(
                p,
                idx,
            ),
        forall|k: int|
            0 <= k < idxs.len() ==> #[trigger] peval(rv, idxs[k] as nat) == data[
                idxs[k] as int
            ].val(),
        forall|j: int|
            0 <= j < nodes.len() ==> fmul(#[trigger] invs[j], prod_fsub(nodes[j], nodes.take(j)))
                == 1,
    ensures
        !open_consistent(p, data, idxs),
{
    if open_consistent(p, data, idxs) {
        let t = idxs.len() as int;
        let zv = spec_vanishing(idxs);
        // the remainder vanishes at every node
        assert forall|k: int| 0 <= k < t implies peval(remv, #[trigger] nodes[k]) == 0 by {
            let xk = idxs[k] as nat;
            let vk = data[idxs[k] as int].val();
            lemma_peval_coeffwise(padd(padd(pmul(qv, zv), remv), rv), p, xk);
            lemma_peval_add(padd(pmul(qv, zv), remv), rv, xk);
            lemma_peval_add(pmul(qv, zv), remv, xk);
            lemma_peval_mul(qv, zv, xk);
            lemma_vanishing_root(idxs, k);
            lemma_fmul_zero(peval(qv, xk));
            lemma_peval_bound(remv, xk);
            lemma_fadd_zero(peval(remv, xk));
            assert(peval(p, xk) == fadd(peval(remv, xk), vk));
            assert(peval(p, xk) == vk);
            lemma_fadd_sub_cancel(peval(remv, xk), vk);
            lemma_fsub_self(vk);
            assert(peval(remv, xk) == 0);
        }
        // truncating to the node count changes nothing the nodes can see
        let sv = remv.take(t);
        assert forall|idx: int| coeff_at(sv, idx) == coeff_at(remv, idx) by {
            if t <= idx < remv.len() {
                lemma_pdeg_zero_above(remv, idx);
            }
        }
        assert(reduced(sv)) by {
            assert forall|i: int| 0 <= i < sv.len() implies sv[i] < q_order() by {
                assert(sv[i] == remv[i]);
            }
        }
        assert forall|k: int| 0 <= k < nodes.len() implies peval(sv, #[trigger] nodes[k]) == 0 by {
            lemma_peval_coeffwise(sv, remv, nodes[k]);
        }
        lemma_distinct_roots_zero(sv, nodes, invs);
        assert forall|i: int| 0 <= i < remv.len() implies remv[i] == 0 by {
            if i < t {
                assert(sv[i] == 0);
            } else {
                lemma_pdeg_zero_above(remv, i);
            }
        }
        assert(false);
    }
}

/// Pairwise distinct integers below `n` number at most `n`.
proof fn lemma_distinct_bounded_len(idxs: Seq<u64>, n: nat)
    requires
        forall|k: int| 0 <= k < idxs.len() ==> (#[trigger] idxs[k]) < n,
        forall|k1: int, k2: int| 0 <= k1 < k2 < idxs.len() ==> idxs[k1] != idxs[k2],
    ensures
        idxs.len() <= n,
{
    let s = idxs.map_values(|v: u64| v as int);
    assert(s.no_duplicates());
    s.unique_seq_to_set();
    let range = set_int_range(0, n as int);
    lemma_int_range(0, n as int);
    assert(s.to_set().subset_of(range)) by {
        assert forall|x: int| s.to_set().contains(x) implies range.contains(x) by {
            let k = choose|k: int| 0 <= k < s.len() && s[k] == x;
            assert(idxs[k] < n);
        }
    }
    lemma_len_subset(s.to_set(), range);
}

impl Blob {
    /// The blob is well formed: the parameters are, the data fills the
    /// domain, and the polynomial passes through the data at the recorded
    /// interpolation nodes.
    pub open spec fn wf(&self) -> bool {
        &&& self.pp.wf()
        &&& self.data.len() == self.pp.n()
        &&& forall|i: int| 0 <= i < self.data.len() ==> (#[trigger] self.data[i]).wf()
        &&& self.p.wf()
        &&& self.p@.len() == self.pp.n()
        &&& self.nodes@.len() == self.pp.n()
        &&& forall|i: int|
            0 <= i < self.nodes@.len() ==> #[trigger] peval(self.p@, self.nodes@[i])
                == self.data[i].val()
    }

    /// The canonical generator of the evaluation domain of size `2^K`: the
    /// fixed primitive `2^28`-th root of unity raised to the `2^(28-K)`-th
    /// power. The result is a primitive `2^K`-th root of unity.
    pub fn root_of_unity(K: u32) -> (r: Fe)
        requires
            K <= two_adicity(),
        ensures
            r.wf(),
            r.val() == fpow(root_of_unity_val(), pow2((two_adicity() - K) as nat)),
            fpow(r.val(), pow2(K as nat)) == 1,
            forall|d: nat| 0 < d < pow2(K as nat) ==> #[trigger] fpow(r.val(), d) != 1,
    {
        let w0 = fe_root_of_unity();
        let shift: u64 = 28 - (K as u64);
        let e: u64 = 1u64 << shift;
        proof {
            lemma2_to64();
            lemma_pow2_strictly_increases(shift as nat, 64);
            lemma_u64_shl_is_mul(1u64, shift);
        }
        let r = fe_pow(&w0, e);
        proof {
            assert(e as nat == pow2((two_adicity() - K) as nat));
            lemma_scaled_root_order(w0.val(), two_adicity(), K as nat);
        }
        r
    }

    /// Evaluates a polynomial whose coefficients are group elements, by
    /// Horner's rule over the group: the discrete logarithm of the result
    /// is the value, at the point, of the polynomial of the coefficients'
    /// discrete logarithms.
    pub fn evaluate_group_polynomial(coeffs: Vec<G1>, x: Fe) -> (r: G1)
        requires
            x.wf(),
        ensures
            g1_dlog(r) == peval(g1_dlogs(coeffs@), x.val()),
    {
        let ghost dl = g1_dlogs(coeffs@);
        let mut out = g1_identity();
        let mut i = coeffs.len();
        proof {
            assert(dl.skip(i as int) =~= Seq::<nat>::empty());
        }
        while i > 0
            invariant
                i <= coeffs.len(),
                x.wf(),
                dl == g1_dlogs(coeffs@),
                g1_dlog(out) == peval(dl.skip(i as int), x.val()),
            decreases i,
        {
            i = i - 1;
            let scaled = g1_scalar_mul(&out, &x);
            let out2 = g1_add(&coeffs[i], &scaled);
            proof {
                let s = dl.skip(i as int);
                assert(s[0] == g1_dlog(coeffs@[i as int]));
                assert(s.subrange(1, s.len() as int) =~= dl.skip(i as int + 1));
                lemma_fmul_comm(g1_dlog(out), x.val());
            }
            out = out2;
        }
        proof {
            assert(dl.skip(0) =~= dl);
        }
        out
    }

    /// Runs an insecure mock of the trusted setup: powers of `tau` in both
    /// groups and the committed Lagrange basis for the domain of size
    /// `2^K`. The secret scalar is taken in the clear, so the parameters
    /// are usable only for testing.
    pub fn mock_trusted_setup(tau: u64, K: u32, n_openings: u64) -> (r: pp)
        requires
            K <= two_adicity(),
            n_openings + 1 <= u32::MAX,
        ensures
            r.wf(),
            r.K == K,
            r.tau@ == tau as nat,
            r.ptau_g2.len() == n_openings + 1,
    {
        proof {
            lemma2_to64();
            lemma_pow2_strictly_increases(K as nat, 32);
            lemma_usize_shl_is_mul(1usize, K as usize);
        }
        let n: usize = 1usize << (K as usize);
        let tau_fe = fe_from_u64(tau);
        let ghost t = tau as nat;
        proof {
            lemma_fpow_zero(t);
        }
        // powers of tau in the first group
        let mut ptau_g1: Vec<G1> = Vec::new();
        ptau_g1.push(g1_generator());
        while ptau_g1.len() < n
            invariant
                1 <= ptau_g1@.len() <= n,
                tau_fe.wf(),
                tau_fe.val() == t,
                forall|i: int|
                    0 <= i < ptau_g1@.len() ==> g1_dlog(#[trigger] ptau_g1@[i]) == fpow(
                        t,
                        i as nat,
                    ),
            decreases n - ptau_g1@.len(),
        {
            let last = ptau_g1.len() - 1;
            let next = g1_scalar_mul(&ptau_g1[last], &tau_fe);
            proof {
                lemma_fpow_unfold(t, last as nat + 1);
                lemma_fmul_comm(fpow(t, last as nat), t);
            }
            ptau_g1.push(next);
        }
        // powers of tau in the second group
        let g2len: usize = (n_openings + 1) as usize;
        let mut ptau_g2: Vec<G2> = Vec::new();
        ptau_g2.push(g2_generator());
        while ptau_g2.len() < g2len
            invariant
                1 <= ptau_g2@.len() <= g2len,
                tau_fe.wf(),
                tau_fe.val() == t,
                forall|i: int|
                    0 <= i < ptau_g2@.len() ==> g2_dlog(#[trigger] ptau_g2@[i]) == fpow(
                        t,
                        i as nat,
                    ),
            decreases g2len - ptau_g2@.len(),
        {
            let last = ptau_g2.len() - 1;
            let next = g2_scalar_mul(&ptau_g2[last], &tau_fe);
            proof {
                lemma_fpow_unfold(t, last as nat + 1);
                lemma_fmul_comm(fpow(t, last as nat), t);
            }
            ptau_g2.push(next);
        }
        // the evaluation domain
        let w = Self::root_of_unity(K);
        let ghost wv = w.val();
        let mut points: Vec<Fe> = Vec::new();
        points.push(fe_one());
        proof {
            lemma_fpow_zero(wv);
        }
        while points.len() < n
            invariant
                1 <= points@.len() <= n,
                w.wf(),
                wv == w.val(),
                forall|i: int|
                    0 <= i < points@.len() ==> (#[trigger] points@[i]).wf() && points@[i].val()
                        == fpow(wv, i as nat),
            decreases n - points@.len(),
        {
            let last = points.len() - 1;
            let next = fe_mul(&points[last], &w);
            proof {
                lemma_fpow_unfold(wv, last as nat + 1);
                lemma_fmul_comm(fpow(wv, last as nat), wv);
            }
            points.push(next);
        }
        proof {
            assert forall|i: int, j: int|
                0 <= i < j < vals(points@).len() implies vals(points@)[i] != vals(
                points@,
            )[j] by {
                lemma_powers_distinct(wv, pow2(K as nat), i as nat, j as nat);
            }
        }
        // the committed Lagrange basis
        let mut ptau_lis: Vec<G1> = Vec::new();
        let ghost mut lis_seq: Seq<Seq<nat>> = Seq::empty();
        let mut i: usize = 0;
        while i < n
            invariant
                i <= n,
                n == pow2(K as nat),
                n + 2 <= usize::MAX,
                tau_fe.wf(),
                tau_fe.val() == t,
                t < q_order(),
                w.wf(),
                wv == w.val(),
                points@.len() == n,
                forall|jj: int|
                    0 <= jj < points@.len() ==> (#[trigger] points@[jj]).wf()
                        && points@[jj].val() == fpow(wv, jj as nat),
                pairwise_distinct(vals(points@)),
                ptau_lis@.len() == i,
                lis_seq.len() == i,
                forall|ii: int| 0 <= ii < i ==> (#[trigger] lis_seq[ii]).len() == n,
                forall|ii: int|
                    0 <= ii < i ==> g1_dlog(#[trigger] ptau_lis@[ii]) == peval(lis_seq[ii], t),
                forall|ii: int, jj: int|
                    0 <= ii < i && 0 <= jj < n ==> #[trigger] peval(
                        lis_seq[ii],
                        fpow(wv, jj as nat),
                    ) == if ii == jj {
                        1nat
                    } else {
                        0nat
                    },
            decreases n - i,
        {
            // the unit vector of evaluations for this basis polynomial
            let mut evals: Vec<Fe> = Vec::new();
            while evals.len() < n
                invariant
                    evals@.len() <= n,
                    forall|jj: int|
                        0 <= jj < evals@.len() ==> (#[trigger] evals@[jj]).wf()
                            && evals@[jj].val() == 0,
                decreases n - evals@.len(),
            {
                evals.push(fe_zero());
            }
            evals[i] = fe_one();
            let li = Polynomial::from_points(&points, &evals);
            let v = li.eval(tau_fe);
            let gen = g1_generator();
            let com = g1_scalar_mul(&gen, &v);
            proof {
                lemma_peval_bound(li@, t);
                lemma_fmul_one(peval(li@, t));
                assert(g1_dlog(com) == peval(li@, t));
                assert forall|jj: int|
                    0 <= jj < n implies #[trigger] peval(li@, fpow(wv, jj as nat)) == (if i == jj {
                    1nat
                } else {
                    0nat
                }) by {
                    assert(peval(li@, vals(points@)[jj]) == vals(evals@)[jj]);
                }
            }
            ptau_lis.push(com);
            proof {
                lis_seq = lis_seq.push(li@);
            }
            i = i + 1;
        }
        pp {
            K,
            ptau_g1,
            ptau_g2,
            ptau_lis,
            tau: Ghost(t),
            omega: Ghost(wv),
            lis: Ghost(lis_seq),
        }
    }

    /// Interpolates the blob polynomial over the multiplicative domain
    /// `omega^0 .. omega^(n-1)` and stores the data beside the parameters.
    /// Fails exactly when the data length is not the domain size.
    pub fn new(d: &Vec<Fe>, pp: pp) -> (res: Result<Blob, Error>)
        requires
            pp.wf(),
            forall|i: int| 0 <= i < d.len() ==> (#[trigger] d[i]).wf(),
        ensures
            match res {
                Ok(b) => {
                    &&& b.wf()
                    &&& b.pp == pp
                    &&& b.data@ == d@
                    &&& b.nodes@ == Seq::new(pp.n(), |i: int| fpow(pp.omega@, i as nat))
                },
                Err(e) => e == Error::DomainSizeMismatch && d.len() != pp.n(),
            },
    {
        proof {
            lemma2_to64();
            lemma_pow2_strictly_increases(pp.K as nat, 32);
            lemma_usize_shl_is_mul(1usize, pp.K as usize);
        }
        let n: usize = 1usize << (pp.K as usize);
        if d.len() != n {
            return Err(Error::DomainSizeMismatch);
        }
        let w = Self::root_of_unity(pp.K);
        let ghost wv = w.val();
        proof {
            assert(wv == pp.omega@);
            lemma_fpow_zero(wv);
        }
        let mut points: Vec<Fe> = Vec::new();
        points.push(fe_one());
        while points.len() < n
            invariant
                1 <= points@.len() <= n,
                w.wf(),
                wv == w.val(),
                forall|i: int|
                    0 <= i < points@.len() ==> (#[trigger] points@[i]).wf() && points@[i].val()
                        == fpow(wv, i as nat),
            decreases n - points@.len(),
        {
            let last = points.len() - 1;
            let next = fe_mul(&points[last], &w);
            proof {
                lemma_fpow_unfold(wv, last as nat + 1);
                lemma_fmul_comm(fpow(wv, last as nat), wv);
            }
            points.push(next);
        }
        proof {
            assert forall|i: int, j: int|
                0 <= i < j < vals(points@).len() implies vals(points@)[i] != vals(
                points@,
            )[j] by {
                lemma_powers_distinct(wv, pow2(pp.K as nat), i as nat, j as nat);
            }
        }
        let p = Polynomial::from_points(&points, d);
        let data = copy_fes(d);
        let b = Blob { pp, data, p, nodes: Ghost(vals(points@)) };
        proof {
            assert(b.nodes@ =~= Seq::new(b.pp.n(), |i: int| fpow(b.pp.omega@, i as nat)));
        }
        Ok(b)
    }

    /// Interpolates the blob polynomial over the sequential domain
    /// `0 .. n-1`, embedded into the field, so that the opening proof's
    /// interpolant and vanishing polynomial speak of the same node set.
    /// Fails exactly when the data length is not the domain size.
    pub fn new_sequential(d: &Vec<Fe>, pp: pp) -> (res: Result<Blob, Error>)
        requires
            pp.wf(),
            forall|i: int| 0 <= i < d.len() ==> (#[trigger] d[i]).wf(),
        ensures
            match res {
                Ok(b) => {
                    &&& b.wf()
                    &&& b.pp == pp
                    &&& b.data@ == d@
                    &&& b.nodes@ == Seq::new(pp.n(), |i: int| i as nat)
                },
                Err(e) => e == Error::DomainSizeMismatch && d.len() != pp.n(),
            },
    {
        proof {
            lemma2_to64();
            lemma_pow2_strictly_increases(pp.K as nat, 32);
            lemma_usize_shl_is_mul(1usize, pp.K as usize);
        }
        let n: usize = 1usize << (pp.K as usize);
        if d.len() != n {
            return Err(Error::DomainSizeMismatch);
        }
        let mut points: Vec<Fe> = Vec::new();
        while points.len() < n
            invariant
                points@.len() <= n,
                n <= u32::MAX,
                forall|i: int|
                    0 <= i < points@.len() ==> (#[trigger] points@[i]).wf() && points@[i].val()
                        == i as nat,
            decreases n - points@.len(),
        {
            let idx = points.len() as u64;
            points.push(fe_from_u64(idx));
        }
        let p = Polynomial::from_points(&points, d);
        let data = copy_fes(d);
        let b = Blob { pp, data, p, nodes: Ghost(vals(points@)) };
        proof {
            assert(b.nodes@ =~= Seq::new(b.pp.n(), |i: int| i as nat));
        }
        Ok(b)
    }

    /// The KZG commitment to the blob polynomial: the point whose discrete
    /// logarithm is the value of the polynomial at the secret scalar.
    pub fn commit(&self) -> (r: G1Affine)
        requires
            self.wf(),
        ensures
            g1a_dlog(r) == peval(self.p@, self.pp.tau@),
    {
        proof {
            lemma_pdeg_lt(self.p@);
        }
        let res = self.p.eval_ptau(&self.pp.ptau_g1);
        match res {
            Ok(c) => {
                proof {
                    lemma_commit_is_eval(self.p@, self.pp.ptau_g1@, self.pp.tau@);
                }
                g1_to_affine(&c)
            },
            Err(_) => {
                proof {
                    assert(false);
                }
                g1_to_affine(&g1_identity())
            },
        }
    }

    /// The opening proof for the listed indices: the affine commitment to
    /// the quotient `(p - r) / z`, the coefficients of the vanishing
    /// polynomial `z` of the index set, and the coefficients of the
    /// interpolant `r` through the opened values. On success the blob
    /// polynomial agrees with the data at the integer-cast nodes, the
    /// commitment stands for the exact quotient of `p - r` by `z`, and the
    /// division identity holds at the secret scalar, which is what the
    /// verifier's pairing check tests. `NonDivisible` comes exactly on
    /// valid opening sets whose nodes the blob polynomial does not agree
    /// with, which happens when the blob was interpolated over a different
    /// node set than the integer-cast indices.
    #[verifier::rlimit(100)]
    pub fn open_prf(&self, idxs: Vec<u64>) -> (res: Result<(G1Affine, Vec<Fe>, Vec<Fe>), Error>)
        requires
            self.wf(),
        ensures
            match res {
                Ok(t) => {
                    &&& valid_openings(self.pp.n(), self.pp.m(), idxs@)
                    &&& open_consistent(self.p@, self.data@, idxs@)
                    &&& forall|j: int| 0 <= j < t.1@.len() ==> (#[trigger] t.1@[j]).wf()
                    &&& forall|j: int| 0 <= j < t.2@.len() ==> (#[trigger] t.2@[j]).wf()
                    &&& vals(t.1@) == spec_vanishing(idxs@)
                    &&& t.1@.len() == idxs@.len() + 1
                    &&& t.2@.len() == (if idxs@.len() == 0 {
                        1int
                    } else {
                        idxs@.len() as int
                    })
                    &&& forall|k: int|
                        0 <= k < idxs@.len() ==> #[trigger] peval(vals(t.2@), idxs@[k] as nat)
                            == self.data@[idxs@[k] as int].val()
                    &&& exists|qc: Seq<nat>|
                        #[trigger] quotient_witness(
                            qc,
                            self.p@,
                            vals(t.2@),
                            idxs@,
                            self.pp.tau@,
                            t.0,
                        )
                    &&& fadd(
                        fmul(g1a_dlog(t.0), peval(spec_vanishing(idxs@), self.pp.tau@)),
                        peval(vals(t.2@), self.pp.tau@),
                    ) == peval(self.p@, self.pp.tau@)
                },
                Err(e) => {
                    ||| (e == Error::InvalidOpenings && !valid_openings(
                        self.pp.n(),
                        self.pp.m(),
                        idxs@,
                    ))
                    ||| (e == Error::NonDivisible && valid_openings(
                        self.pp.n(),
                        self.pp.m(),
                        idxs@,
                    ) && !open_consistent(self.p@, self.data@, idxs@))
                },
            },
    {
        proof {
            lemma2_to64();
            lemma_pow2_strictly_increases(self.pp.K as nat, 32);
        }
        let n = self.data.len();
        let m = self.pp.ptau_g2.len() - 1;
        if idxs.len() > m {
            return Err(Error::InvalidOpenings);
        }
        let mut k: usize = 0;
        while k < idxs.len()
            invariant
                k <= idxs.len(),
                self.wf(),
                n == self.data.len(),
                forall|kk: int| 0 <= kk < k ==> (#[trigger] idxs@[kk]) < n,
            decreases idxs.len() - k,
        {
            if idxs[k] >= n as u64 {
                proof {
                    assert(idxs@[k as int] >= self.pp.n());
                }
                return Err(Error::InvalidOpenings);
            }
            k = k + 1;
        }
        let mut k1: usize = 0;
        while k1 < idxs.len()
            invariant
                k1 <= idxs.len(),
                forall|a: int, b: int| 0 <= a < b < idxs@.len() && a < k1 ==> idxs@[a] != idxs@[b],
            decreases idxs.len() - k1,
        {
            let mut k2: usize = k1 + 1;
            while k2 < idxs.len()
                invariant
                    k1 < k2 <= idxs.len() || (k1 + 1 == k2 && k2 >= idxs.len()),
                    forall|b: int| k1 < b < k2 ==> idxs@[k1 as int] != (#[trigger] idxs@[b]),
                decreases idxs.len() - k2,
            {
                if idxs[k1] == idxs[k2] {
                    proof {
                        assert(idxs@[k1 as int] == idxs@[k2 as int]);
                    }
                    return Err(Error::InvalidOpenings);
                }
                k2 = k2 + 1;
            }
            k1 = k1 + 1;
        }
        proof {
            assert(valid_openings(self.pp.n(), self.pp.m(), idxs@));
            lemma_distinct_bounded_len(idxs@, self.pp.n());
        }
        // the opened values and the integer-cast nodes
        let mut nodes_v: Vec<Fe> = Vec::new();
        let mut vals_v: Vec<Fe> = Vec::new();
        let mut k: usize = 0;
        while k < idxs.len()
            invariant
                k <= idxs.len(),
                self.wf(),
                n == self.data.len(),
                forall|kk: int| 0 <= kk < idxs@.len() ==> (#[trigger] idxs@[kk]) < n,
                nodes_v@.len() == k,
                vals_v@.len() == k,
                forall|kk: int|
                    0 <= kk < k ==> (#[trigger] nodes_v@[kk]).wf() && nodes_v@[kk].val()
                        == idxs@[kk] as nat,
                forall|kk: int|
                    0 <= kk < k ==> (#[trigger] vals_v@[kk]).wf() && vals_v@[kk].val()
                        == self.data@[idxs@[kk] as int].val(),
            decreases idxs.len() - k,
        {
            nodes_v.push(fe_from_u64(idxs[k]));
            vals_v.push(self.data[idxs[k] as usize]);
            k = k + 1;
        }
        proof {
            assert forall|a: int, b: int|
                0 <= a < b < vals(nodes_v@).len() implies vals(nodes_v@)[a] != vals(
                nodes_v@,
            )[b] by {
                assert(idxs@[a] != idxs@[b]);
            }
        }
        let r_poly = Polynomial::from_points(&nodes_v, &vals_v);
        let ghost rv = r_poly@;
        let z = Polynomial::vanishing(idxs);
        let ghost zv = z@;
        proof {
            lemma_vanishing_monic(idxs@);
        }
        let diff = self.p.sub(&r_poly);
        let qr = Polynomial::div_euclid(&diff, &z);
        match qr {
            Err(_) => {
                proof {
                    assert(pis_zero(z@));
                    assert(z@[idxs@.len() as int] == 0);
                    assert(zv[idxs@.len() as int] == 1);
                    assert(false);
                }
                Err(Error::DivisionByZero)
            },
            Ok((q, rem)) => {
                proof {
                    lemma_pow2_pos(self.pp.K as nat);
                    self.p.lemma_wf_reduced();
                    rem.lemma_wf_reduced();
                    // p == (q z + rem) + r at every coefficient
                    assert forall|idx: int|
                        coeff_at(padd(padd(pmul(q@, zv), rem@), rv), idx) == coeff_at(
                        self.p@,
                        idx,
                    ) by {
                        lemma_coeff_at_padd(padd(pmul(q@, zv), rem@), rv, idx);
                        lemma_coeff_at_psub(self.p@, rv, idx);
                        lemma_fsub_add_cancel(coeff_at(self.p@, idx), coeff_at(rv, idx));
                    }
                    // the interpolant matches the data at each node
                    assert forall|kk: int|
                        0 <= kk < idxs@.len() implies #[trigger] peval(rv, idxs@[kk] as nat)
                            == self.data@[idxs@[kk] as int].val() by {
                        assert(peval(rv, vals(nodes_v@)[kk]) == vals(vals_v@)[kk]);
                        assert(vals(nodes_v@)[kk] == idxs@[kk] as nat);
                    }
                }
                if !rem.is_zero() {
                    proof {
                        // an empty opening set always divides: z is one
                        if idxs@.len() == 0 {
                            assert(pdeg(zv) == 0);
                            assert(pis_zero(rem@));
                            assert(false);
                        }
                    }
                    // invert the prefix products of node differences,
                    // witnessing that the nodes are separated in the field
                    let invs_v = node_diff_invs(&nodes_v);
                    proof {
                        assert forall|kk: int|
                            0 <= kk < idxs@.len() implies (#[trigger] nodes_v@[kk]).val()
                                == idxs@[kk] as nat by {}
                        lemma_nondivisible_inconsistent(
                            self.p@,
                            self.data@,
                            idxs@,
                            q@,
                            rem@,
                            rv,
                            vals(nodes_v@),
                            vals(invs_v@),
                        );
                    }
                    return Err(Error::NonDivisible);
                }
                // the quotient fits the basis: its degree is bounded by the
                // degree of the difference, because z is monic
                proof {
                    lemma_pdeg_lt(rv);
                    assert(diff@.len() == self.pp.n());
                    q.lemma_wf_reduced();
                    lemma_quotient_degree(idxs@, q@, rem@, diff@);
                    assert(pdeg(q@) < self.pp.n());
                }
                let q_res = q.eval_ptau(&self.pp.ptau_g1);
                match q_res {
                    Err(_) => {
                        proof {
                            assert(false);
                        }
                        Err(Error::BasisTooShort)
                    },
                    Ok(q_point) => {
                        let q_bar = g1_to_affine(&q_point);
                        let z_coeffs = z.get_coeffs();
                        let r_coeffs = r_poly.get_coeffs();
                        let out = (q_bar, z_coeffs, r_coeffs);
                        proof {
                            let t = self.pp.tau@;
                            lemma_commit_is_eval(q@, self.pp.ptau_g1@, t);
                            assert(g1a_dlog(q_bar) == peval(q@, t));
                            q.lemma_wf_reduced();
                            assert(vals(r_coeffs@) =~= rv);
                            assert(vals(z_coeffs@) =~= zv);
                            lemma_open_ok(
                                self.p@,
                                self.data@,
                                idxs@,
                                q@,
                                rem@,
                                rv,
                                t,
                                q_bar,
                            );
                            assert(quotient_witness(
                                q@,
                                self.p@,
                                vals(out.2@),
                                idxs@,
                                self.pp.tau@,
                                out.0,
                            ));
                            assert(exists|qc: Seq<nat>|
                                #[trigger] quotient_witness(
                                    qc,
                                    self.p@,
                                    vals(out.2@),
                                    idxs@,
                                    self.pp.tau@,
                                    out.0,
                                ));
                        }
                        Ok(out)
                    },
                }
            },
        }
    }
}

/// A copy of a vector of field elements.
fn copy_fes(v: &Vec<Fe>) -> (r: Vec<Fe>)
    ensures
        r@ == v@,
{
    let mut out: Vec<Fe> = Vec::new();
    let mut i: usize = 0;
    while i < v.len()
        invariant
            i <= v.len(),
            out@ =~= v@.take(i as int),
        decreases v.len() - i,
    {
        out.push(v[i]);
        i = i + 1;
    }
    proof {
        assert(out@ =~= v@);
    }
    out
}

/// A committed evaluation over the powers-of-tau basis is the value of the
/// polynomial at the secret scalar.
proof fn lemma_commit_is_eval(cv: Seq<nat>, basis: Seq<G1>, t: nat)
    requires
        t < q_order(),
        cv.len() >= 1,
        basis.len() >= pdeg(cv) + 1,
        forall|i: int| 0 <= i < basis.len() ==> g1_dlog(#[trigger] basis[i]) == fpow(t, i as nat),
    ensures
        msm_val(cv.take(pdeg(cv) as int + 1), g1_dlogs(basis).take(pdeg(cv) as int + 1)) == peval(
            cv,
            t,
        ),
{
    let d = pdeg(cv) as int;
    lemma_pdeg_lt(cv);
    let ct = cv.take(d + 1);
    let bt = g1_dlogs(basis).take(d + 1);
    assert forall|i: int| 0 <= i < bt.len() implies bt[i] == fpow(t, (0 + i) as nat) by {
        assert(bt[i] == g1_dlog(basis[i]));
    }
    lemma_msm_powers(ct, bt, t, 0);
    lemma_fpow_zero(t);
    lemma_peval_bound(ct, t);
    lemma_fmul_one(peval(ct, t));
    lemma_peval_trim(cv, t);
}

} // verus!
