use halo2curves::bn256::{Bn256, Fr, G1Affine, G2Affine, G1};
use halo2curves::ff::PrimeField;
use halo2curves::group::prime::PrimeCurveAffine;
use halo2curves::group::Group;
use halo2curves::pairing::Engine;
use kzgblob::blob::Blob;
use kzgblob::field::{fe_from_u64, Fe};
use kzgblob::poly::Polynomial;
use kzgblob::Error;
use rand::RngCore;
use rand_chacha::{rand_core::SeedableRng, ChaCha8Rng};

fn fe(x: u64) -> Fe {
    fe_from_u64(x)
}

fn fe_of_fr(x: Fr) -> Fe {
    let b = x.to_bytes();
    Fe {
        l0: u64::from_le_bytes(b[0..8].try_into().unwrap()),
        l1: u64::from_le_bytes(b[8..16].try_into().unwrap()),
        l2: u64::from_le_bytes(b[16..24].try_into().unwrap()),
        l3: u64::from_le_bytes(b[24..32].try_into().unwrap()),
    }
}

fn fr_of_fe(x: &Fe) -> Fr {
    Fr::from_raw([x.l0, x.l1, x.l2, x.l3])
}

fn seeded_data(seed: u64, len: u64) -> Vec<Fe> {
    let mut rng = ChaCha8Rng::seed_from_u64(seed);
    (0..len).map(|_| fe(rng.next_u64())).collect()
}

/// Runs through a smoke test example blob and verifies that the pairing
/// check passes in the end.
#[test]
fn verify_sample_proof() {
    // Test parameters
    let tau: u64 = 123;
    let k: u32 = 2;
    let blob_len: u64 = 2u64.pow(k);
    let openings: Vec<u64> = vec![2, 3];

    // Dummy data
    let dummy_data = seeded_data(12345, blob_len);

    // Run mock trusted setup
    let pp = Blob::mock_trusted_setup(tau, k, openings.len() as u64);

    // Commit to the blob data, interpolating over the sequential domain so
    // that the interpolant and the vanishing polynomial share its node set
    let blob = Blob::new_sequential(&dummy_data, pp).unwrap();
    let p_bar = blob.commit();

    // Compute the opening proof
    let (q_bar, z_coeffs, r_coeffs) = blob.open_prf(openings).unwrap();
    assert_eq!(z_coeffs.len(), 3);
    assert_eq!(r_coeffs.len(), 2);
    let z = Polynomial::new(z_coeffs);
    let r = Polynomial::new(r_coeffs);

    // Confirm that the pairing check passes
    let z_bar = G2Affine::from(z.eval_ptau_g2(&blob.pp.ptau_g2).unwrap());
    let r_bar = G1Affine::from(r.eval_ptau(&blob.pp.ptau_g1).unwrap());
    let lhs = Bn256::pairing(&q_bar, &z_bar);
    let rhs = Bn256::pairing(
        &G1Affine::from(G1::from(p_bar) - G1::from(r_bar)),
        &G2Affine::from(blob.pp.ptau_g2[0]),
    );
    assert!(lhs == rhs);
}

#[test]
fn single_opening_shapes() {
    let k: u32 = 3;
    let n: u64 = 8;
    let data = seeded_data(7, n);
    let pp = Blob::mock_trusted_setup(123, k, 1);
    let blob = Blob::new_sequential(&data, pp).unwrap();
    let (_q_bar, z_coeffs, r_coeffs) = blob.open_prf(vec![5]).unwrap();
    // z(X) = X - 5, r(X) = d[5]
    assert_eq!(z_coeffs, vec![fe_of_fr(-Fr::from(5)), fe(1)]);
    assert_eq!(r_coeffs, vec![data[5]]);
    // the quotient has degree n - 2
    let r = Polynomial::new(r_coeffs);
    let z = Polynomial::new(z_coeffs);
    let diff = blob.p.sub(&r);
    let (q, rem) = Polynomial::div_euclid(&diff, &z).unwrap();
    assert!(rem.is_zero());
    assert_eq!(q.deg() as u64, n - 2);
}

#[test]
fn full_opening_gives_zero_quotient() {
    let k: u32 = 2;
    let data = seeded_data(99, 4);
    let pp = Blob::mock_trusted_setup(123, k, 4);
    let blob = Blob::new_sequential(&data, pp).unwrap();
    let (q_bar, _z_coeffs, r_coeffs) = blob.open_prf(vec![0, 1, 2, 3]).unwrap();
    // the interpolant is the blob polynomial itself and the quotient is zero
    assert_eq!(r_coeffs, blob.p.get_coeffs());
    assert_eq!(q_bar, G1Affine::identity());
}

#[test]
fn mismatched_node_sets_are_caught() {
    // interpolating over the multiplicative domain while opening over the
    // integer-cast nodes leaves the difference non-divisible
    let k: u32 = 2;
    let data = seeded_data(12345, 4);
    let pp = Blob::mock_trusted_setup(123, k, 2);
    let blob = Blob::new(&data, pp).unwrap();
    assert_eq!(blob.open_prf(vec![2, 3]), Err(Error::NonDivisible));
}

#[test]
fn empty_opening_always_succeeds() {
    // the vanishing polynomial of no indices is one, which divides anything
    let data = seeded_data(5, 4);
    let pp = Blob::mock_trusted_setup(123, 2, 2);
    let blob = Blob::new(&data, pp).unwrap();
    let (q_bar, z_coeffs, r_coeffs) = blob.open_prf(vec![]).unwrap();
    assert_eq!(z_coeffs, vec![fe(1)]);
    assert_eq!(r_coeffs, vec![fe(0)]);
    // p - 0 == q, so the quotient commitment is the commitment itself
    assert_eq!(q_bar, blob.commit());
}

#[test]
fn duplicate_opening_rejected() {
    let data = seeded_data(1, 4);
    let pp = Blob::mock_trusted_setup(123, 2, 4);
    let blob = Blob::new_sequential(&data, pp).unwrap();
    assert_eq!(blob.open_prf(vec![2, 2]), Err(Error::InvalidOpenings));
}

#[test]
fn out_of_range_opening_rejected() {
    let data = seeded_data(2, 4);
    let pp = Blob::mock_trusted_setup(123, 2, 4);
    let blob = Blob::new_sequential(&data, pp).unwrap();
    assert_eq!(blob.open_prf(vec![9]), Err(Error::InvalidOpenings));
}

#[test]
fn too_many_openings_rejected() {
    let data = seeded_data(3, 4);
    let pp = Blob::mock_trusted_setup(123, 2, 1);
    let blob = Blob::new_sequential(&data, pp).unwrap();
    assert_eq!(blob.open_prf(vec![0, 1]), Err(Error::InvalidOpenings));
}

#[test]
fn wrong_data_length_rejected() {
    let data = seeded_data(4, 3);
    let pp = Blob::mock_trusted_setup(123, 2, 1);
    match Blob::new_sequential(&data, pp) {
        Err(e) => assert_eq!(e, Error::DomainSizeMismatch),
        Ok(_) => panic!("length mismatch accepted"),
    }
}

#[test]
fn commit_matches_direct_evaluation() {
    let k: u32 = 2;
    let data = seeded_data(21, 4);
    let pp = Blob::mock_trusted_setup(123, k, 2);
    let blob = Blob::new_sequential(&data, pp).unwrap();
    let p_bar = blob.commit();
    // Horner evaluation of the blob polynomial at tau, in the clear
    let tau = Fr::from(123);
    let mut acc = Fr::zero();
    for c in blob.p.get_coeffs().iter().rev() {
        acc = acc * tau + fr_of_fe(c);
    }
    assert_eq!(p_bar, G1Affine::from(G1::generator() * acc));
}

#[test]
fn lagrange_basis_commitments_match() {
    // after setup, ptau_lis[i] is L_i(tau) G1 over the multiplicative domain
    let tau: u64 = 321;
    let k: u32 = 5;
    let n: usize = 32;
    let pp = Blob::mock_trusted_setup(tau, k, 2);
    let w = fr_of_fe(&Blob::root_of_unity(k));
    let mut points: Vec<Fe> = Vec::new();
    let mut acc = Fr::one();
    for _ in 0..n {
        points.push(fe_of_fr(acc));
        acc *= w;
    }
    for i in 0..n {
        let mut evals = vec![fe(0); n];
        evals[i] = fe(1);
        let li = Polynomial::from_points(&points, &evals);
        let li_tau = li.eval(fe(tau));
        assert_eq!(pp.ptau_lis[i], G1::generator() * fr_of_fe(&li_tau));
    }
}

#[test]
fn root_of_unity_matches_field_constant() {
    // the full-order root is the canonical primitive 2^28-th root of unity
    let w0 = Blob::root_of_unity(28);
    assert_eq!(fr_of_fe(&w0), Fr::ROOT_OF_UNITY);
    // and squaring down the tower ends at the domain generator of order 2
    let w1 = Blob::root_of_unity(1);
    assert_eq!(fr_of_fe(&w1), -Fr::one());
}

#[test]
fn evaluate_group_polynomial_combines_coefficients() {
    // (2 + 3x) with group coefficients [2 G, 3 G] at x = 5 is 17 G
    let g = G1::generator();
    let coeffs = vec![g * Fr::from(2), g * Fr::from(3)];
    let out = Blob::evaluate_group_polynomial(coeffs, fe(5));
    assert_eq!(out, g * Fr::from(17));
}

#[test]
fn setup_bases_are_powers_of_tau() {
    let pp = Blob::mock_trusted_setup(123, 2, 3);
    assert_eq!(pp.ptau_g1.len(), 4);
    assert_eq!(pp.ptau_g2.len(), 4);
    let tau = Fr::from(123);
    let mut power = Fr::one();
    for i in 0..4 {
        assert_eq!(pp.ptau_g1[i], G1::generator() * power);
        power *= tau;
    }
}
