use kzg::kzg::{commit_and_prove_single, compute_quotient, verify_single, Proof};
use kzg::kzg_tools::error::KzgError;
use kzg::kzg_tools::evaluation::Evaluation;
use kzg::kzg_tools::field::FieldElement;
use kzg::kzg_tools::polynomial::Polynomial;
use kzg::kzg_tools::trusted_setup::{generate_trusted_setup, trusted_setup};

fn fe(v: u64) -> FieldElement {
    FieldElement::from_u64(v)
}

fn poly(values: &[u64]) -> Polynomial {
    Polynomial::new(values.iter().map(|v| fe(*v)).collect())
}

#[test]
fn kzg_test() {
    // Create a polynomial with given degree.
    let polynomial_degree = 7;
    let z = FieldElement::random();
    let trusted_setup = trusted_setup(polynomial_degree);
    let polynomial = Polynomial::create_polynomial(polynomial_degree);
    let prover = commit_and_prove_single(&polynomial, z, &trusted_setup.clone()).unwrap();
    let verifier = verify_single(&prover, z, &trusted_setup);
    assert!(verifier);
}

#[test]
fn single_proof_of_a_fixed_polynomial_verifies() {
    let setup = generate_trusted_setup(2, 1);
    let polynomial = poly(&[3, 2, 1]);
    let proof = commit_and_prove_single(&polynomial, fe(5), &setup).unwrap();
    assert_eq!(proof.y.evaluation, fe(38));
    assert!(verify_single(&proof, fe(5), &setup));
}

#[test]
fn single_proof_is_rejected_at_another_point() {
    let setup = generate_trusted_setup(2, 1);
    let polynomial = poly(&[3, 2, 1]);
    let proof = commit_and_prove_single(&polynomial, fe(5), &setup).unwrap();
    assert!(!verify_single(&proof, fe(6), &setup));
}

#[test]
fn tampered_value_is_rejected() {
    let setup = trusted_setup(7);
    let polynomial = Polynomial::create_polynomial(7);
    let z = FieldElement::random();
    let proof = commit_and_prove_single(&polynomial, z, &setup).unwrap();
    let other = Evaluation::new(proof.y.evaluation).add(Evaluation::new(fe(1)));
    let tampered = Proof {
        polynomial_commitment: proof.polynomial_commitment,
        quotient_commitment: proof.quotient_commitment,
        y: other,
    };
    assert!(verify_single(&proof, z, &setup));
    assert!(!verify_single(&tampered, z, &setup));
}

#[test]
fn setup_with_too_few_powers_is_refused() {
    // degree 3 needs four powers in G1
    let setup = generate_trusted_setup(2, 1);
    let polynomial = poly(&[1, 2, 3, 4]);
    let r = commit_and_prove_single(&polynomial, fe(9), &setup);
    assert!(matches!(r, Err(KzgError::SetupTooSmall)));
    assert!(matches!(setup.commit_g1(&polynomial), Err(KzgError::SetupTooSmall)));
    assert!(matches!(setup.commit_g2(&polynomial), Err(KzgError::SetupTooSmall)));
    assert!(setup.commit_g1(&poly(&[1, 2, 3])).is_ok());
}

#[test]
fn constant_polynomial_cannot_be_divided_by_a_linear_factor() {
    let setup = generate_trusted_setup(2, 1);
    let r = commit_and_prove_single(&poly(&[4]), fe(9), &setup);
    assert!(matches!(r, Err(KzgError::DegreeMismatch)));
}

#[test]
fn wrong_claim_has_no_witness() {
    let polynomial = poly(&[3, 2, 1]);
    // p(5) = 38
    let q = compute_quotient(&polynomial, fe(5), fe(38)).unwrap();
    // (X^2 + 2X + 3 - 38) / (X - 5) = X + 7
    assert_eq!(q.coeff, vec![fe(7), fe(1)]);
    let r = compute_quotient(&polynomial, fe(5), fe(39));
    assert_eq!(r.unwrap_err(), KzgError::InvalidWitness);
}

#[test]
fn setup_has_the_requested_sizes() {
    let setup = generate_trusted_setup(5, 3);
    assert_eq!(setup.s_g1.len(), 6);
    assert_eq!(setup.s_g2.len(), 4);
    let square = trusted_setup(4);
    assert_eq!(square.s_g1.len(), 5);
    assert_eq!(square.s_g2.len(), 5);
}
