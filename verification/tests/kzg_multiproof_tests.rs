use kzg::kzg_multiproof::{commit_and_prove_multi, verify_multi, zero_polynomial, MultiProof};
use kzg::kzg_tools::curve::{pairings_agree, G1Point, G2Point};
use kzg::kzg_tools::error::KzgError;
use kzg::kzg_tools::field::FieldElement;
use kzg::kzg_tools::polynomial::Polynomial;
use kzg::kzg_tools::trusted_setup::{generate_trusted_setup, setup_from_secret, trusted_setup};

fn fe(v: u64) -> FieldElement {
    FieldElement::from_u64(v)
}

fn elements(values: &[u64]) -> Vec<FieldElement> {
    values.iter().map(|v| fe(*v)).collect()
}

#[test]
fn kzg_multiproof_test() {
    // Create a polynomial with given degree.
    let polynomial_degree = 7;
    let trusted_setup = trusted_setup(polynomial_degree);
    // Evaluate committed polynomial at determined number of points(signatures).
    let k_points = 4;
    assert!(
        k_points < polynomial_degree,
        "Polynomial degree must be bigger than k_points!"
    );
    let mut z_points: Vec<FieldElement> = Vec::new();

    for _ in 0..k_points {
        let random_num = FieldElement::random();
        z_points.push(random_num);
    }
    let polynomial = Polynomial::create_polynomial(polynomial_degree);
    let prover = commit_and_prove_multi(&polynomial, z_points, &trusted_setup.clone()).unwrap();
    let verifier = verify_multi(&prover, &trusted_setup);
    assert!(verifier);
}

#[test]
fn multi_proof_with_a_small_g2_setup_verifies() {
    // three points need the powers 0..=3 in G2
    let setup = generate_trusted_setup(5, 3);
    let polynomial = Polynomial::new(elements(&[9, 8, 7, 6, 5, 4]));
    let proof = commit_and_prove_multi(&polynomial, elements(&[1, 2, 3]), &setup).unwrap();
    assert!(verify_multi(&proof, &setup));
}

#[test]
fn multi_proof_without_points_verifies() {
    let setup = generate_trusted_setup(2, 0);
    let polynomial = Polynomial::new(elements(&[9, 8, 7]));
    let proof = commit_and_prove_multi(&polynomial, Vec::new(), &setup).unwrap();
    assert!(verify_multi(&proof, &setup));
}

#[test]
fn mixed_up_commitments_are_rejected() {
    let setup = trusted_setup(7);
    let polynomial = Polynomial::create_polynomial(7);
    let proof = commit_and_prove_multi(&polynomial, elements(&[1, 2, 3, 4]), &setup).unwrap();
    let tampered = MultiProof {
        polynomial_commitment: proof.interpolation_polynomial_commitment,
        quotient_commitment: proof.quotient_commitment,
        interpolation_polynomial_commitment: proof.polynomial_commitment,
        zero_polynomial_commitment: proof.zero_polynomial_commitment,
    };
    assert!(verify_multi(&proof, &setup));
    assert!(!verify_multi(&tampered, &setup));
}

#[test]
fn as_many_points_as_the_degree_are_too_many() {
    let setup = trusted_setup(7);
    let polynomial = Polynomial::create_polynomial(3);
    let r = commit_and_prove_multi(&polynomial, elements(&[1, 2, 3]), &setup);
    assert!(matches!(r, Err(KzgError::TooManyOpeningPoints)));
    let r = commit_and_prove_multi(&polynomial, elements(&[1, 2, 3, 4, 5]), &setup);
    assert!(matches!(r, Err(KzgError::TooManyOpeningPoints)));
    let r = commit_and_prove_multi(&Polynomial::new(Vec::new()), Vec::new(), &setup);
    assert!(matches!(r, Err(KzgError::TooManyOpeningPoints)));
    assert!(commit_and_prove_multi(&polynomial, elements(&[1, 2]), &setup).is_ok());
}

#[test]
fn repeated_point_is_a_degeneracy() {
    let setup = trusted_setup(7);
    let polynomial = Polynomial::create_polynomial(7);
    let r = commit_and_prove_multi(&polynomial, elements(&[1, 2, 1]), &setup);
    assert!(matches!(r, Err(KzgError::InterpolationDegeneracy)));
}

#[test]
fn multi_proof_needs_enough_powers_in_both_groups() {
    let polynomial = Polynomial::create_polynomial(5);
    let r = commit_and_prove_multi(&polynomial, elements(&[1, 2]), &generate_trusted_setup(4, 4));
    assert!(matches!(r, Err(KzgError::SetupTooSmall)));
    let r = commit_and_prove_multi(&polynomial, elements(&[1, 2]), &generate_trusted_setup(5, 1));
    assert!(matches!(r, Err(KzgError::SetupTooSmall)));
    let r = commit_and_prove_multi(&polynomial, elements(&[1, 2]), &generate_trusted_setup(5, 2));
    assert!(r.is_ok());
}

#[test]
fn zero_polynomial_is_the_product_of_the_linear_factors() {
    // (X - 1)(X - 2) = X^2 - 3X + 2
    let z = zero_polynomial(&elements(&[1, 2]));
    let minus_three = kzg::kzg_tools::evaluation::Evaluation::new(fe(0))
        .sub(kzg::kzg_tools::evaluation::Evaluation::new(fe(3)));
    assert_eq!(z.coeff, vec![fe(2), minus_three.evaluation, fe(1)]);
    assert_eq!(zero_polynomial(&Vec::new()).coeff, vec![fe(1)]);
}

#[test]
fn multi_proof_under_a_known_secret_carries_the_four_values() {
    // p = 9 + 8X + 7X^2 + 6X^3 + 5X^4 + 4X^5 opened at 1, 2, 3, with the secret 10:
    // p(10) = 456789, I(10) = 40485, Z(10) = 9 * 8 * 7 = 504, Q(10) = 826
    let setup = setup_from_secret(&fe(10), 5, 3);
    let polynomial = Polynomial::new(elements(&[9, 8, 7, 6, 5, 4]));
    let proof = commit_and_prove_multi(&polynomial, elements(&[1, 2, 3]), &setup).unwrap();
    let g = G1Point::generator();
    let h = G2Point::generator();
    assert!(pairings_agree(&proof.polynomial_commitment, &h, &g.mul(&fe(456789)), &h));
    assert!(pairings_agree(&proof.interpolation_polynomial_commitment, &h, &g.mul(&fe(40485)), &h));
    assert!(pairings_agree(&proof.quotient_commitment, &h, &g.mul(&fe(826)), &h));
    assert!(pairings_agree(&g, &proof.zero_polynomial_commitment, &g, &h.mul(&fe(504))));
    assert!(verify_multi(&proof, &setup));
}
