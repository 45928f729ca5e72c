//! The BN254 scalar field. Elements are stored as the canonical little-endian
//! 64-bit limbs of their representative in `[0, q_order())`, so that every
//! element has exactly one representation and the mathematical value of an
//! element is a plain function of its limbs. The arithmetic itself is done by
//! halo2curves' `Fr` type behind trusted wrappers; everything stated about the
//! wrappers is in terms of arithmetic modulo `q_order()`.

use vstd::prelude::*;

use halo2curves::bn256::Fr;
use halo2curves::ff::Field;
use halo2curves::ff::PrimeField;

verus! {

use vstd::arithmetic::div_mod::*;
use vstd::arithmetic::mul::*;
use vstd::arithmetic::power::*;
use vstd::arithmetic::power2::*;

/// Order of the BN254 scalar field; a prime whose predecessor is divisible by
/// `2^28` and by no higher power of two.
pub open spec fn q_order() -> nat {
    0x30644e72e131a029b85045b68181585d2833e84879b9709143e1f593f0000001nat
}

/// The 2-adicity of the field: the multiplicative group contains a subgroup
/// of order `2^28`.
pub open spec fn two_adicity() -> nat {
    28
}

/// The canonical primitive `2^28`-th root of unity of the scalar field:
/// the multiplicative generator seven raised to the odd cofactor of the
/// group order, `7^((q_order() - 1) / 2^28)` reduced modulo `q_order()`.
pub open spec fn root_of_unity_val() -> nat {
    0x3ddb9f5166d18b798865ea93dd31f743215cf6dd39329c8d34f1ed960c37c9cnat
}

/// Addition modulo the field order.
pub open spec fn fadd(a: nat, b: nat) -> nat {
    (a + b) % q_order()
}

/// Additive inverse modulo the field order.
pub open spec fn fneg(a: nat) -> nat {
    ((q_order() - a % q_order()) as nat) % q_order()
}

/// Subtraction modulo the field order.
pub open spec fn fsub(a: nat, b: nat) -> nat {
    fadd(a, fneg(b))
}

/// Multiplication modulo the field order.
pub open spec fn fmul(a: nat, b: nat) -> nat {
    (a * b) % q_order()
}

/// Exponentiation modulo the field order.
pub open spec fn fpow(b: nat, e: nat) -> nat {
    (pow(b as int, e) % (q_order() as int)) as nat
}

/// An element of the scalar field: the canonical little-endian 64-bit limbs
/// of its representative in `[0, q_order())`.
#[derive(Clone, Copy, Debug, PartialEq, Eq, Structural)]
pub struct Fe {
    pub l0: u64,
    pub l1: u64,
    pub l2: u64,
    pub l3: u64,
}

impl Fe {
    /// The integer encoded by the limbs.
    pub open spec fn val(&self) -> nat {
        (self.l0 + self.l1 * pow2(64) + self.l2 * pow2(128) + self.l3 * pow2(192)) as nat
    }

    /// Canonical form: the encoded integer is reduced modulo the field order.
    pub open spec fn wf(&self) -> bool {
        self.val() < q_order()
    }
}

/// The additive identity.
pub fn fe_zero() -> (r: Fe)
    ensures
        r.wf(),
        r.val() == 0,
{
    Fe { l0: 0, l1: 0, l2: 0, l3: 0 }
}

/// The multiplicative identity.
pub fn fe_one() -> (r: Fe)
    ensures
        r.wf(),
        r.val() == 1,
{
    Fe { l0: 1, l1: 0, l2: 0, l3: 0 }
}

/// Embeds an unsigned 64-bit integer into the field. Every such integer is
/// below the field order, so the value is kept exactly.
pub fn fe_from_u64(n: u64) -> (r: Fe)
    ensures
        r.wf(),
        r.val() == n,
{
    Fe { l0: n, l1: 0, l2: 0, l3: 0 }
}

/// Relies on `Fr` addition in halo2curves: addition modulo the field order,
/// returned in canonical form by `Fr::to_bytes`.
#[verifier::external_body]
pub(crate) fn fe_add(a: &Fe, b: &Fe) -> (r: Fe)
    ensures
        r.wf(),
        r.val() == fadd(a.val(), b.val()),
{
    let s = (Fr::from_raw([a.l0, a.l1, a.l2, a.l3]) + Fr::from_raw([b.l0, b.l1, b.l2, b.l3]))
        .to_bytes();
    Fe {
        l0: u64::from_le_bytes(s[0..8].try_into().unwrap()),
        l1: u64::from_le_bytes(s[8..16].try_into().unwrap()),
        l2: u64::from_le_bytes(s[16..24].try_into().unwrap()),
        l3: u64::from_le_bytes(s[24..32].try_into().unwrap()),
    }
}

/// Relies on `Fr` subtraction in halo2curves: subtraction modulo the field
/// order, returned in canonical form by `Fr::to_bytes`.
#[verifier::external_body]
pub(crate) fn fe_sub(a: &Fe, b: &Fe) -> (r: Fe)
    ensures
        r.wf(),
        r.val() == fsub(a.val(), b.val()),
{
    let s = (Fr::from_raw([a.l0, a.l1, a.l2, a.l3]) - Fr::from_raw([b.l0, b.l1, b.l2, b.l3]))
        .to_bytes();
    Fe {
        l0: u64::from_le_bytes(s[0..8].try_into().unwrap()),
        l1: u64::from_le_bytes(s[8..16].try_into().unwrap()),
        l2: u64::from_le_bytes(s[16..24].try_into().unwrap()),
        l3: u64::from_le_bytes(s[24..32].try_into().unwrap()),
    }
}

/// Relies on `Fr` negation in halo2curves: the additive inverse modulo the
/// field order, returned in canonical form by `Fr::to_bytes`.
#[verifier::external_body]
pub(crate) fn fe_neg(a: &Fe) -> (r: Fe)
    ensures
        r.wf(),
        r.val() == fneg(a.val()),
{
    let s = (-Fr::from_raw([a.l0, a.l1, a.l2, a.l3])).to_bytes();
    Fe {
        l0: u64::from_le_bytes(s[0..8].try_into().unwrap()),
        l1: u64::from_le_bytes(s[8..16].try_into().unwrap()),
        l2: u64::from_le_bytes(s[16..24].try_into().unwrap()),
        l3: u64::from_le_bytes(s[24..32].try_into().unwrap()),
    }
}

/// Relies on `Fr` multiplication in halo2curves: multiplication modulo the
/// field order, returned in canonical form by `Fr::to_bytes`. The field order
/// is prime, so a product of two nonzero elements is again nonzero.
#[verifier::external_body]
pub(crate) fn fe_mul(a: &Fe, b: &Fe) -> (r: Fe)
    ensures
        r.wf(),
        r.val() == fmul(a.val(), b.val()),
        a.wf() && b.wf() && a.val() != 0 && b.val() != 0 ==> r.val() != 0,
{
    let s = (Fr::from_raw([a.l0, a.l1, a.l2, a.l3]) * Fr::from_raw([b.l0, b.l1, b.l2, b.l3]))
        .to_bytes();
    Fe {
        l0: u64::from_le_bytes(s[0..8].try_into().unwrap()),
        l1: u64::from_le_bytes(s[8..16].try_into().unwrap()),
        l2: u64::from_le_bytes(s[16..24].try_into().unwrap()),
        l3: u64::from_le_bytes(s[24..32].try_into().unwrap()),
    }
}

/// Relies on `Fr::invert` in halo2curves: the multiplicative inverse of a
/// nonzero element. The call fails on zero, so zero is excluded here.
#[verifier::external_body]
pub(crate) fn fe_inv(a: &Fe) -> (r: Fe)
    requires
        a.wf(),
        a.val() != 0,
    ensures
        r.wf(),
        fmul(r.val(), a.val()) == 1,
{
    let s = Fr::from_raw([a.l0, a.l1, a.l2, a.l3]).invert().unwrap().to_bytes();
    Fe {
        l0: u64::from_le_bytes(s[0..8].try_into().unwrap()),
        l1: u64::from_le_bytes(s[8..16].try_into().unwrap()),
        l2: u64::from_le_bytes(s[16..24].try_into().unwrap()),
        l3: u64::from_le_bytes(s[24..32].try_into().unwrap()),
    }
}

/// Relies on `Fr::ROOT_OF_UNITY` in halo2curves (`ff::PrimeField`): a fixed
/// primitive `2^28`-th root of unity of the scalar field, so its `2^28`-th
/// power is one while its `2^27`-th power is not.
#[verifier::external_body]
pub(crate) fn fe_root_of_unity() -> (r: Fe)
    ensures
        r.wf(),
        r.val() == root_of_unity_val(),
        fpow(r.val(), pow2(two_adicity())) == 1,
        fpow(r.val(), pow2((two_adicity() - 1) as nat)) != 1,
{
    let s = Fr::ROOT_OF_UNITY.to_bytes();
    Fe {
        l0: u64::from_le_bytes(s[0..8].try_into().unwrap()),
        l1: u64::from_le_bytes(s[8..16].try_into().unwrap()),
        l2: u64::from_le_bytes(s[16..24].try_into().unwrap()),
        l3: u64::from_le_bytes(s[24..32].try_into().unwrap()),
    }
}

/// Adding zero keeps a reduced value.
pub proof fn lemma_fadd_zero(a: nat)
    requires
        a < q_order(),
    ensures
        fadd(a, 0) == a,
        fadd(0, a) == a,
{
    lemma_small_mod(a, q_order());
}

/// Multiplying by zero gives zero.
pub proof fn lemma_fmul_zero(a: nat)
    ensures
        fmul(a, 0) == 0,
        fmul(0, a) == 0,
{
    lemma_mul_basics(a as int);
    lemma_small_mod(0, q_order());
}

/// Multiplying by one keeps a reduced value.
pub proof fn lemma_fmul_one(a: nat)
    requires
        a < q_order(),
    ensures
        fmul(a, 1) == a,
        fmul(1, a) == a,
{
    lemma_mul_basics(a as int);
    lemma_small_mod(a, q_order());
}

/// Field addition is associative.
pub proof fn lemma_fadd_assoc(a: nat, b: nat, c: nat)
    ensures
        fadd(fadd(a, b), c) == fadd(a, fadd(b, c)),
{
    let m = q_order() as int;
    lemma_add_mod_noop_right(c as int, (a + b) as int, m);
    lemma_add_mod_noop_right(a as int, (b + c) as int, m);
}

/// Field multiplication is commutative.
pub proof fn lemma_fmul_comm(a: nat, b: nat)
    ensures
        fmul(a, b) == fmul(b, a),
{
    lemma_mul_is_commutative(a as int, b as int);
}

/// Field multiplication is associative.
pub proof fn lemma_fmul_assoc(a: nat, b: nat, c: nat)
    ensures
        fmul(fmul(a, b), c) == fmul(a, fmul(b, c)),
{
    let m = q_order() as int;
    lemma_mul_mod_noop_left((a * b) as int, c as int, m);
    lemma_mul_mod_noop_right(a as int, (b * c) as int, m);
    lemma_mul_is_associative(a as int, b as int, c as int);
}

/// Field multiplication distributes over field addition.
pub proof fn lemma_fmul_distrib(a: nat, b: nat, c: nat)
    ensures
        fmul(a, fadd(b, c)) == fadd(fmul(a, b), fmul(a, c)),
{
    let m = q_order() as int;
    lemma_mul_mod_noop_right(a as int, (b + c) as int, m);
    lemma_mul_is_distributive_add(a as int, b as int, c as int);
    lemma_add_mod_noop((a * b) as int, (a * c) as int, m);
}

/// A value plus its additive inverse is zero.
pub proof fn lemma_fneg_cancel(a: nat)
    ensures
        fadd(a, fneg(a)) == 0,
{
    let m = q_order() as int;
    lemma_add_mod_noop_right(a as int, (q_order() - a % q_order()) as int, m);
    lemma_mod_add_multiples_vanish((a - a % q_order()) as int, m);
    lemma_fundamental_div_mod(a as int, m);
    lemma_mod_multiples_basic((a as int) / m, m);
    lemma_mul_is_commutative((a as int) / m, m);
}

/// Subtracting and adding back the same value is the identity.
pub proof fn lemma_fsub_add_cancel(a: nat, b: nat)
    requires
        a < q_order(),
    ensures
        fadd(fsub(a, b), b) == a,
{
    lemma_fadd_assoc(a, fneg(b), b);
    lemma_fneg_cancel(b);
    lemma_fadd_zero(a);
    let m = q_order() as int;
    lemma_add_mod_noop_right(a as int, (fneg(b) + b) as int, m);
    lemma_add_mod_noop_right(a as int, (b + fneg(b)) as int, m);
}

/// A value minus itself is zero.
pub proof fn lemma_fsub_self(a: nat)
    ensures
        fsub(a, a) == 0,
{
    lemma_fneg_cancel(a);
}

/// Distinct reduced values have a nonzero difference.
pub proof fn lemma_fsub_nonzero(a: nat, b: nat)
    requires
        a < q_order(),
        b < q_order(),
        a != b,
    ensures
        fsub(a, b) != 0,
{
    if fsub(a, b) == 0 {
        lemma_fsub_add_cancel(a, b);
        lemma_small_mod(b, q_order());
        assert(false);
    }
}

/// Adding a value and later subtracting it cancels out.
pub proof fn lemma_fadd_fsub_cancel(x: nat, h: nat, s: nat)
    requires
        h < q_order(),
    ensures
        fadd(fadd(x, s), fsub(h, s)) == fadd(x, h),
{
    lemma_fadd_assoc(x, s, fsub(h, s));
    lemma_fadd_assoc(h, fneg(s), s);
    lemma_fadd_assoc(h, s, fneg(s));
    lemma_fneg_cancel(s);
    lemma_fadd_zero(h);
    // fadd(s, fsub(h, s)) == fadd(fadd(h, fneg(s)), s) == fadd(h, fadd(s, fneg(s))) == h
    assert(fadd(s, fsub(h, s)) == fadd(fadd(h, fneg(s)), s));
    assert(fadd(fadd(h, fneg(s)), s) == fadd(h, fadd(fneg(s), s)));
    let m = q_order() as int;
    lemma_add_mod_noop_right(x as int, (s + fsub(h, s)) as int, m);
    lemma_add_mod_noop_right(x as int, h as int, m);
    lemma_small_mod(h, q_order());
}

/// Additive inverses are unique among reduced values.
pub proof fn lemma_fadd_inverse_unique(u: nat, v: nat, w: nat)
    requires
        v < q_order(),
        w < q_order(),
        fadd(u, v) == 0,
        fadd(u, w) == 0,
    ensures
        v == w,
{
    // v == v + (u + w) == (v + u) + w == w
    lemma_fadd_assoc(v, u, w);
    lemma_fadd_zero(v);
    lemma_fadd_zero(w);
}

/// Negation passes through multiplication.
pub proof fn lemma_fmul_fneg(x: nat, y: nat)
    ensures
        fmul(x, fneg(y)) == fneg(fmul(x, y)),
{
    lemma_fmul_distrib(x, y, fneg(y));
    lemma_fneg_cancel(y);
    lemma_fmul_zero(x);
    lemma_fneg_cancel(fmul(x, y));
    lemma_fadd_inverse_unique(fmul(x, y), fmul(x, fneg(y)), fneg(fmul(x, y)));
}

/// Subtracting a value just added is the identity.
pub proof fn lemma_fadd_sub_cancel(a: nat, b: nat)
    requires
        a < q_order(),
    ensures
        fsub(fadd(a, b), b) == a,
{
    lemma_fadd_assoc(a, b, fneg(b));
    lemma_fneg_cancel(b);
    lemma_fadd_zero(a);
}

/// Rearranging differences: `(a - b) + (u - v) == (a + u) - (b + v)`.
pub proof fn lemma_fsub_rearrange(a: nat, b: nat, u: nat, v: nat)
    ensures
        fadd(fsub(a, b), fsub(u, v)) == fsub(fadd(a, u), fadd(b, v)),
{
    // negation distributes over the sum `b + v`
    lemma_fadd_rearrange(b, v, fneg(b), fneg(v));
    lemma_fneg_cancel(b);
    lemma_fneg_cancel(v);
    lemma_fneg_cancel(fadd(b, v));
    assert(fadd(0, 0) == 0) by {
        lemma_small_mod(0, q_order());
    }
    assert(fadd(fadd(b, v), fadd(fneg(b), fneg(v))) == 0);
    lemma_fadd_inverse_unique(fadd(b, v), fadd(fneg(b), fneg(v)), fneg(fadd(b, v)));
    // then the four-term rearrangement finishes it
    lemma_fadd_rearrange(a, fneg(b), u, fneg(v));
}

/// Rearranging a sum of four terms: `(a + b) + (u + v) == (a + u) + (b + v)`.
pub proof fn lemma_fadd_rearrange(a: nat, b: nat, u: nat, v: nat)
    ensures
        fadd(fadd(a, b), fadd(u, v)) == fadd(fadd(a, u), fadd(b, v)),
{
    lemma_fadd_assoc(a, b, fadd(u, v));
    lemma_fadd_assoc(b, u, v);
    lemma_fadd_assoc(u, b, v);
    lemma_fadd_assoc(a, u, fadd(b, v));
}

/// A power with exponent zero is one.
pub proof fn lemma_fpow_zero(b: nat)
    ensures
        fpow(b, 0) == 1,
{
    lemma_pow0(b as int);
    lemma_small_mod(1, q_order());
}

/// Peeling one factor off a power.
pub proof fn lemma_fpow_unfold(b: nat, e: nat)
    requires
        e > 0,
    ensures
        fpow(b, e) == fmul(b, fpow(b, (e - 1) as nat)),
{
    reveal(pow);
    lemma_mul_mod_noop_right(b as int, pow(b as int, (e - 1) as nat), q_order() as int);
}

/// Powers of one are one.
pub proof fn lemma_fpow_one_base(e: nat)
    ensures
        fpow(1, e) == 1,
{
    lemma1_pow(e);
    lemma_small_mod(1, q_order());
}

/// Power of a sum of exponents is the product of the powers.
pub proof fn lemma_fpow_adds(b: nat, e1: nat, e2: nat)
    ensures
        fpow(b, e1 + e2) == fmul(fpow(b, e1), fpow(b, e2)),
{
    lemma_pow_adds(b as int, e1, e2);
    lemma_mul_mod_noop(pow(b as int, e1), pow(b as int, e2), q_order() as int);
}

/// Power of a product of exponents is an iterated power.
pub proof fn lemma_fpow_multiplies(b: nat, e1: nat, e2: nat)
    ensures
        fpow(b, e1 * e2) == fpow(fpow(b, e1), e2),
{
    lemma_pow_multiplies(b as int, e1, e2);
    lemma_pow_mod_noop(pow(b as int, e1), e2, q_order() as int);
}

/// Squaring the base halves the exponent.
pub proof fn lemma_fpow_even(b: nat, k: nat)
    ensures
        fpow(fmul(b, b), k) == fpow(b, 2 * k),
{
    lemma_pow_mod_noop((b * b) as int, k, q_order() as int);
    lemma_pow_multiplies(b as int, 2, k);
    lemma_pow_adds(b as int, 1, 1);
    lemma_pow1(b as int);
}

/// Every positive integer is a power of two times an odd number.
pub proof fn lemma_pow2_odd_decomposition(d: nat) -> (r: (nat, nat))
    requires
        d > 0,
    ensures
        d == pow2(r.0) * r.1,
        r.1 % 2 == 1,
    decreases d,
{
    if d % 2 == 1 {
        lemma_pow2(0);
        lemma_pow0(2);
        (0, d)
    } else {
        let (t, m) = lemma_pow2_odd_decomposition(d / 2);
        lemma_pow2_adds(1, t);
        lemma_pow2(1);
        lemma_pow1(2);
        lemma_mul_is_associative(2, pow2(t) as int, m as int);
        ((t + 1) as nat, m)
    }
}

/// A field element whose `2^s`-th power is one but whose `2^(s-1)`-th power
/// is not one has no positive power below `2^s` equal to one.
pub proof fn lemma_order_pow2(x: nat, s: nat, d: nat)
    requires
        s > 0,
        fpow(x, pow2(s)) == 1,
        fpow(x, pow2((s - 1) as nat)) != 1,
        0 < d < pow2(s),
    ensures
        fpow(x, d) != 1,
{
    if fpow(x, d) == 1 {
        let (t, m) = lemma_pow2_odd_decomposition(d);
        // m is odd and positive, so pow2(t) <= d, hence t < s
        assert(m >= 1);
        lemma_pow2_pos(t);
        lemma_mul_ordering(pow2(t) as int, m as int);
        if t >= s {
            lemma_pow2_strictly_increases(s, t + 1);
            lemma_pow2_adds(t, 0);
            if t > s {
                lemma_pow2_strictly_increases(s, t);
            }
            assert(pow2(t) >= pow2(s));
            assert(false);
        }
        let st1 = (s - 1 - t) as nat;
        // raise both sides to pow2(s - 1 - t)
        lemma_fpow_multiplies(x, d, pow2(st1));
        lemma_fpow_one_base(pow2(st1));
        // d * pow2(s-1-t) == pow2(s-1) * m
        lemma_pow2_adds(t, st1);
        lemma_mul_is_associative(pow2(t) as int, m as int, pow2(st1) as int);
        lemma_mul_is_commutative(m as int, pow2(st1) as int);
        lemma_mul_is_associative(pow2(t) as int, pow2(st1) as int, m as int);
        assert(d * pow2(st1) == pow2((s - 1) as nat) * m);
        let y = fpow(x, pow2((s - 1) as nat));
        lemma_fpow_multiplies(x, pow2((s - 1) as nat), m);
        assert(fpow(y, m) == 1);
        // y squared is x to the pow2(s), which is one
        lemma_fpow_multiplies(x, pow2((s - 1) as nat), 2);
        lemma_pow2_adds((s - 1) as nat, 1);
        lemma_pow2(1);
        lemma_pow1(2);
        assert(pow2((s - 1) as nat) * 2 == pow2(s));
        assert(fpow(y, 2) == 1);
        // m odd: y^m == (y^2)^(m/2) * y == y, so y == 1: contradiction
        let k = (m / 2) as nat;
        lemma_fpow_adds(y, 2 * k, 1);
        lemma_fpow_multiplies(y, 2, k);
        lemma_fpow_one_base(k);
        lemma_pow1(y as int);
        lemma_small_mod(y, q_order());
        lemma_fmul_one(y);
        assert(fpow(y, 1) == y);
        assert(fpow(y, m) == fmul(fpow(y, 2 * k), fpow(y, 1)));
        assert(fpow(y, 2 * k) == fpow(fpow(y, 2), k));
        assert(y == 1);
        assert(false);
    }
}

/// Reducing a root of unity of order `2^s` to order `2^k` by raising it to
/// the `2^(s-k)`-th power: the result has exact order `2^k`.
pub proof fn lemma_scaled_root_order(w: nat, s: nat, k: nat)
    requires
        s > 0,
        k <= s,
        fpow(w, pow2(s)) == 1,
        fpow(w, pow2((s - 1) as nat)) != 1,
    ensures
        fpow(fpow(w, pow2((s - k) as nat)), pow2(k)) == 1,
        forall|d: nat|
            0 < d < pow2(k) ==> #[trigger] fpow(fpow(w, pow2((s - k) as nat)), d) != 1,
{
    let e = pow2((s - k) as nat);
    lemma_fpow_multiplies(w, e, pow2(k));
    lemma_pow2_adds((s - k) as nat, k);
    assert(fpow(fpow(w, e), pow2(k)) == fpow(w, pow2(s)));
    assert forall|d: nat| 0 < d < pow2(k) implies #[trigger] fpow(fpow(w, e), d) != 1 by {
        lemma_fpow_multiplies(w, e, d);
        lemma_pow2_pos((s - k) as nat);
        lemma_mul_strict_inequality(d as int, pow2(k) as int, e as int);
        lemma_mul_is_commutative(e as int, d as int);
        lemma_pow2_pos(k);
        lemma_mul_ordering(e as int, d as int);
        lemma_order_pow2(w, s, e * d);
    }
}

/// Powers of an element of exact order `n` are pairwise distinct below `n`.
pub proof fn lemma_powers_distinct(x: nat, n: nat, i: nat, j: nat)
    requires
        fpow(x, n) == 1,
        forall|d: nat| 0 < d < n ==> #[trigger] fpow(x, d) != 1,
        i < j < n,
    ensures
        fpow(x, i) != fpow(x, j),
{
    if fpow(x, i) == fpow(x, j) {
        lemma_fpow_adds(x, i, (n - i) as nat);
        lemma_fpow_adds(x, j, (n - i) as nat);
        lemma_fpow_adds(x, (j - i) as nat, n);
        lemma_fmul_one(fpow(x, (j - i) as nat));
        lemma_fmul_comm(fpow(x, (j - i) as nat), fpow(x, n));
        assert(i + (n - i) == n);
        assert(j + (n - i) == (j - i) + n);
        assert(fpow(x, (j - i) as nat) == 1);
        assert(false);
    }
}

/// Zero test: the canonical form encodes zero exactly when every limb is zero.
pub fn fe_is_zero(a: &Fe) -> (r: bool)
    ensures
        r == (a.val() == 0),
{
    proof {
        lemma_pow2_pos(64);
        lemma_pow2_pos(128);
        lemma_pow2_pos(192);
        if a.l1 != 0 {
            assert(a.l1 * pow2(64) > 0) by (nonlinear_arith)
                requires a.l1 > 0, pow2(64) > 0;
        }
        if a.l2 != 0 {
            assert(a.l2 * pow2(128) > 0) by (nonlinear_arith)
                requires a.l2 > 0, pow2(128) > 0;
        }
        if a.l3 != 0 {
            assert(a.l3 * pow2(192) > 0) by (nonlinear_arith)
                requires a.l3 > 0, pow2(192) > 0;
        }
    }
    a.l0 == 0 && a.l1 == 0 && a.l2 == 0 && a.l3 == 0
}

/// Square-and-multiply exponentiation with a 64-bit exponent.
pub fn fe_pow(base: &Fe, e: u64) -> (r: Fe)
    requires
        base.wf(),
    ensures
        r.wf(),
        r.val() == fpow(base.val(), e as nat),
{
    let mut result = fe_one();
    let mut b = *base;
    let mut k = e;
    proof {
        lemma_fpow_zero(base.val());
        lemma_fmul_one(fpow(base.val(), e as nat));
    }
    while k > 0
        invariant
            result.wf(),
            b.wf(),
            fmul(result.val(), fpow(b.val(), k as nat)) == fpow(base.val(), e as nat),
        decreases k,
    {
        let ghost r0 = result.val();
        let ghost b0 = b.val();
        let ghost k0 = k as nat;
        if k % 2 == 1 {
            result = fe_mul(&result, &b);
        }
        let b2 = fe_mul(&b, &b);
        proof {
            lemma_fpow_even(b0, (k0 / 2) as nat);
            if k0 % 2 == 1 {
                // r*B * B^(k-1) == r * B^k
                lemma_fmul_assoc(r0, b0, fpow(b0, (k0 - 1) as nat));
                lemma_fpow_unfold(b0, k0);
                assert(2 * (k0 / 2) == k0 - 1);
            } else {
                assert(2 * (k0 / 2) == k0);
            }
        }
        b = b2;
        k = k / 2;
    }
    proof {
        lemma_fpow_zero(b.val());
        lemma_fmul_one(result.val());
    }
    result
}

} // verus!
