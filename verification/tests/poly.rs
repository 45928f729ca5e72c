use halo2curves::bn256::{Fr, G1};
use halo2curves::group::Group;
use kzgblob::field::{fe_from_u64, Fe};
use kzgblob::poly::Polynomial;
use kzgblob::Error;

fn fe(x: u64) -> Fe {
    fe_from_u64(x)
}

fn fe_of_fr(x: Fr) -> Fe {
    let b = x.to_bytes();
    Fe {
        l0: u64::from_le_bytes(b[0..8].try_into().unwrap()),
        l1: u64::from_le_bytes(b[8..16].try_into().unwrap()),
        l2: u64::from_le_bytes(b[16..24].try_into().unwrap()),
        l3: u64::from_le_bytes(b[24..32].try_into().unwrap()),
    }
}

fn fr_of_fe(x: &Fe) -> Fr {
    Fr::from_raw([x.l0, x.l1, x.l2, x.l3])
}

fn poly(coeffs: Vec<Fe>) -> Polynomial {
    Polynomial::new(coeffs)
}

#[test]
fn add_pads_and_sums_coefficientwise() {
    let f = poly(vec![fe(2), fe(3)]);
    let g = poly(vec![fe(5)]);
    let s = f.add(&g);
    assert_eq!(s.get_coeffs(), vec![fe(7), fe(3)]);
}

#[test]
fn add_commutes_on_samples() {
    let f = poly(vec![fe(1), fe(4), fe(9)]);
    let g = poly(vec![fe(7), fe(0), fe(2), fe(5)]);
    assert_eq!(f.add(&g).get_coeffs(), g.add(&f).get_coeffs());
}

#[test]
fn add_associates_on_samples() {
    let f = poly(vec![fe(1), fe(2)]);
    let g = poly(vec![fe(3), fe(4), fe(5)]);
    let h = poly(vec![fe(6)]);
    assert_eq!(
        f.add(&g).add(&h).get_coeffs(),
        f.add(&g.add(&h)).get_coeffs()
    );
}

#[test]
fn sub_then_add_round_trips() {
    let f = poly(vec![fe(10), fe(20), fe(30)]);
    let g = poly(vec![fe(1), fe(2)]);
    let d = f.sub(&g);
    assert_eq!(d.add(&g).get_coeffs(), f.get_coeffs());
}

#[test]
fn neg_cancels() {
    let f = poly(vec![fe(11), fe(13)]);
    let z = f.add(&f.neg());
    assert!(z.is_zero());
}

#[test]
fn mul_small_constants() {
    let f = poly(vec![fe(2)]);
    let g = poly(vec![fe(3)]);
    assert_eq!(f.mul(&g).get_coeffs(), vec![fe(6)]);
}

#[test]
fn mul_distributes_over_add_on_samples() {
    let f = poly(vec![fe(2), fe(3)]);
    let g = poly(vec![fe(5), fe(7), fe(11)]);
    let h = poly(vec![fe(1), fe(4), fe(6)]);
    let lhs = f.mul(&g.add(&h));
    let rhs = f.mul(&g).add(&f.mul(&h));
    assert_eq!(lhs.get_coeffs(), rhs.get_coeffs());
}

#[test]
fn mul_degree_adds() {
    let f = poly(vec![fe(1), fe(0), fe(3)]);
    let g = poly(vec![fe(4), fe(5), fe(0), fe(7)]);
    assert_eq!(f.mul(&g).deg(), f.deg() + g.deg());
}

#[test]
fn eval_horner_concrete() {
    // 1 + 2x + 3x^2 at x = 2 is 17
    let f = poly(vec![fe(1), fe(2), fe(3)]);
    assert_eq!(f.eval(fe(2)), fe(17));
}

#[test]
fn eval_is_additive_and_multiplicative_on_samples() {
    let f = poly(vec![fe(3), fe(1), fe(4)]);
    let g = poly(vec![fe(2), fe(7)]);
    let x = fe(29);
    let sum_val = fr_of_fe(&f.eval(x)) + fr_of_fe(&g.eval(x));
    assert_eq!(f.add(&g).eval(x), fe_of_fr(sum_val));
    let prod_val = fr_of_fe(&f.eval(x)) * fr_of_fe(&g.eval(x));
    assert_eq!(f.mul(&g).eval(x), fe_of_fr(prod_val));
}

#[test]
fn vanishing_of_single_index() {
    // z(X) = X - 5
    let z = Polynomial::vanishing(vec![5]);
    assert_eq!(z.get_coeffs(), vec![fe_of_fr(-Fr::from(5)), fe(1)]);
}

#[test]
fn vanishing_roots_are_exactly_the_indices() {
    let z = Polynomial::vanishing(vec![2, 7, 9]);
    assert_eq!(z.get_coeffs().len(), 4);
    for i in [2u64, 7, 9] {
        assert_eq!(z.eval(fe(i)), fe(0));
    }
    for i in [0u64, 1, 3, 8, 10] {
        assert_ne!(z.eval(fe(i)), fe(0));
    }
}

#[test]
fn vanishing_of_empty_set_is_one() {
    let z = Polynomial::vanishing(vec![]);
    assert_eq!(z.get_coeffs(), vec![fe(1)]);
}

#[test]
fn interpolation_round_trip() {
    let xs = vec![fe(0), fe(1), fe(2), fe(17)];
    let ys = vec![fe(5), fe(7), fe(11), fe(42)];
    let p = Polynomial::from_points(&xs, &ys);
    assert_eq!(p.get_coeffs().len(), 4);
    for i in 0..4 {
        assert_eq!(p.eval(xs[i]), ys[i]);
    }
}

#[test]
fn interpolation_of_line() {
    // through (1, 3) and (2, 5): 1 + 2x
    let xs = vec![fe(1), fe(2)];
    let ys = vec![fe(3), fe(5)];
    let p = Polynomial::from_points(&xs, &ys);
    assert_eq!(p.get_coeffs(), vec![fe(1), fe(2)]);
}

#[test]
fn division_identity_concrete() {
    // f = 1 + 2x + 3x^2 + 4x^3 + 5x^4, g = X - 1; remainder is f(1) = 15
    let f = poly(vec![fe(1), fe(2), fe(3), fe(4), fe(5)]);
    let g = poly(vec![fe_of_fr(-Fr::one()), fe(1)]);
    let (q, r) = Polynomial::div_euclid(&f, &g).unwrap();
    assert_eq!(r.deg(), 0);
    assert_eq!(r.get_coeffs()[0], fe(15));
    let back = q.mul(&g).add(&r);
    assert_eq!(back.get_coeffs(), f.get_coeffs());
}

#[test]
fn division_by_larger_degree_returns_input() {
    let f = poly(vec![fe(9), fe(1)]);
    let g = poly(vec![fe(1), fe(2), fe(3)]);
    let (q, r) = Polynomial::div_euclid(&f, &g).unwrap();
    assert!(q.is_zero());
    assert_eq!(r.get_coeffs(), f.get_coeffs());
}

#[test]
fn division_by_zero_polynomial_fails() {
    let f = poly(vec![fe(1), fe(2)]);
    let g = poly(vec![fe(0), fe(0)]);
    match Polynomial::div_euclid(&f, &g) {
        Err(e) => assert_eq!(e, Error::DivisionByZero),
        Ok(_) => panic!("division by the zero polynomial succeeded"),
    }
}

#[test]
fn deg_ignores_trailing_zeros() {
    let f = poly(vec![fe(1), fe(2), fe(0), fe(0)]);
    assert_eq!(f.deg(), 1);
    assert!(!f.is_zero());
    let z = poly(vec![fe(0), fe(0)]);
    assert_eq!(z.deg(), 0);
    assert!(z.is_zero());
}

#[test]
fn eval_ptau_rejects_short_basis() {
    let f = poly(vec![fe(1), fe(2), fe(3)]);
    let basis = vec![G1::generator(), G1::generator()];
    assert!(matches!(f.eval_ptau(&basis), Err(Error::BasisTooShort)));
}

#[test]
fn eval_ptau_combines_basis() {
    // (2 + 3x) against basis [G, 5G] is (2 + 15) G
    let f = poly(vec![fe(2), fe(3)]);
    let g = G1::generator();
    let basis = vec![g, g * Fr::from(5)];
    let out = f.eval_ptau(&basis).unwrap();
    assert_eq!(out, g * Fr::from(17));
}
