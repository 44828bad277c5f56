use kzg::kzg_tools::error::KzgError;
use kzg::kzg_tools::field::FieldElement;
use kzg::kzg_tools::polynomial::{pow, Polynomial};

fn fe(v: u64) -> FieldElement {
    FieldElement::from_u64(v)
}

fn elements(values: &[u64]) -> Vec<FieldElement> {
    values.iter().map(|v| fe(*v)).collect()
}

fn poly(values: &[u64]) -> Polynomial {
    Polynomial::new(elements(values))
}

#[test]
fn multiplication_literal() {
    // (3 + 2X + X^2) * (2 + X) = 6 + 7X + 4X^2 + X^3
    let product = poly(&[3, 2, 1]).mul_poly(elements(&[2, 1]));
    assert_eq!(product.coeff, elements(&[6, 7, 4, 1]));
}

#[test]
fn division_literal() {
    // (3 + 2X + X^2) / (2 + X) = X, remainder 3
    let mut numerator = poly(&[3, 2, 1]);
    let (quotient, remainder) = numerator.div_poly(elements(&[2, 1])).unwrap();
    assert_eq!(quotient.coeff, elements(&[0, 1]));
    assert_eq!(remainder.coeff, elements(&[3]));
    assert_eq!(numerator.coeff, elements(&[3]));
}

#[test]
fn division_by_longer_divisor_is_a_degree_mismatch() {
    let mut numerator = poly(&[3, 2]);
    let r = numerator.div_poly(elements(&[1, 2, 3]));
    assert_eq!(r.unwrap_err(), KzgError::DegreeMismatch);
    assert_eq!(numerator.coeff, elements(&[3, 2]));
}

#[test]
fn division_by_zero_leading_coefficient_fails() {
    let mut numerator = poly(&[3, 2, 1]);
    assert_eq!(numerator.div_poly(elements(&[2, 0])).unwrap_err(), KzgError::DivisionByZero);
    assert_eq!(numerator.div_poly(Vec::new()).unwrap_err(), KzgError::DivisionByZero);
    assert_eq!(numerator.coeff, elements(&[3, 2, 1]));
}

#[test]
fn power_of_small_numbers() {
    assert_eq!(pow(fe(3), 4).evaluation, fe(81));
    assert_eq!(pow(fe(7), 0).evaluation, fe(1));
}

#[test]
fn evaluation_is_the_sum_of_the_monomials() {
    // 3 + 2*5 + 25 = 38
    assert_eq!(poly(&[3, 2, 1]).eval(fe(5)).evaluation, fe(38));
    assert_eq!(poly(&[]).eval(fe(5)).evaluation, fe(0));
}

#[test]
fn addition_and_subtraction_pad_the_shorter_operand() {
    let sum = poly(&[1, 2, 3]).add_poly(elements(&[10, 20]));
    assert_eq!(sum.coeff, elements(&[11, 22, 3]));
    let difference = poly(&[10, 20]).sub_poly(elements(&[1, 2, 3]));
    let minus_three = poly(&[0]).sub_poly(elements(&[3])).coeff[0];
    assert_eq!(difference.coeff, vec![fe(9), fe(18), minus_three]);
    assert_eq!(poly(&[]).add_poly(Vec::new()).coeff, Vec::new());
}

#[test]
fn subtraction_wraps_around_the_modulus() {
    // 0 - 1 = r - 1
    let minus_one = poly(&[0]).sub_poly(elements(&[1])).coeff[0];
    assert_eq!(
        minus_one.limbs(),
        [0x43e1f593f0000000, 0x2833e84879b97091, 0xb85045b68181585d, 0x30644e72e131a029]
    );
    let back = poly(&[1]).add_poly(vec![minus_one]);
    assert_eq!(back.coeff, elements(&[0]));
}

#[test]
fn division_gives_back_the_dividend() {
    // q * d + r == n on a fixed example with a remainder of degree one
    let n = elements(&[5, 0, 7, 1, 9]);
    let d = elements(&[3, 1, 2]);
    let mut numerator = Polynomial::new(n.clone());
    let (q, r) = numerator.div_poly(d.clone()).unwrap();
    assert_eq!(q.coeff.len(), 3);
    assert!(r.coeff.len() <= 2);
    let back = q.mul_poly(d).add_poly(r.coeff);
    assert_eq!(back.coeff, n);
}

#[test]
fn exact_division_leaves_the_zero_remainder() {
    // (6 + 7X + 4X^2 + X^3) / (2 + X) = 3 + 2X + X^2
    let mut numerator = poly(&[6, 7, 4, 1]);
    let (q, r) = numerator.div_poly(elements(&[2, 1])).unwrap();
    assert_eq!(q.coeff, elements(&[3, 2, 1]));
    assert_eq!(r.coeff, elements(&[0]));
}

#[test]
fn interpolation_reproduces_a_polynomial() {
    // 1 + 2X + 3X^2 at 0, 1, 2 takes the values 1, 6, 17
    let r = poly(&[]).lagrange(elements(&[0, 1, 2]), elements(&[1, 6, 17])).unwrap();
    assert_eq!(r.coeff, elements(&[1, 2, 3]));
    // a polynomial of lower degree comes back padded with zeros
    let r = poly(&[]).lagrange(elements(&[0, 1, 2]), elements(&[4, 5, 6])).unwrap();
    assert_eq!(r.coeff, elements(&[4, 1, 0]));
    let r = poly(&[]).lagrange(Vec::new(), Vec::new()).unwrap();
    assert_eq!(r.coeff, Vec::new());
}

#[test]
fn interpolation_fails_on_a_repeated_point() {
    let r = poly(&[]).lagrange(elements(&[4, 1, 4]), elements(&[1, 2, 3]));
    assert_eq!(r.unwrap_err(), KzgError::InterpolationDegeneracy);
}

#[test]
fn random_polynomial_has_the_requested_degree() {
    assert_eq!(Polynomial::create_polynomial(0).coeff.len(), 1);
    assert_eq!(Polynomial::create_polynomial(7).coeff.len(), 8);
}

#[test]
fn random_points_come_with_their_values() {
    let p = poly(&[3, 2, 1]);
    let (z, y) = p.eval_of_z_points(5);
    assert_eq!(z.coeff.len(), 5);
    assert_eq!(y.coeff.len(), 5);
    for i in 0..5 {
        assert_eq!(p.eval(z.coeff[i]).evaluation, y.coeff[i]);
    }
}

#[test]
fn text_form_lists_the_terms() {
    let text = poly(&[3, 255]).to_text();
    assert_eq!(
        text,
        "(0x0000000000000000000000000000000000000000000000000000000000000003)x^0 + \
         (0x00000000000000000000000000000000000000000000000000000000000000ff)x^1"
    );
    assert_eq!(poly(&[]).to_text(), "");
    let minus_one = poly(&[0]).sub_poly(elements(&[1]));
    assert_eq!(
        minus_one.to_text(),
        "(0x30644e72e131a029b85045b68181585d2833e84879b9709143e1f593f0000000)x^0"
    );
}

#[test]
fn text_form_counts_the_exponents_in_decimal() {
    let zeros: Vec<u64> = vec![0; 12];
    let text = poly(&zeros).to_text();
    assert!(text.ends_with(
        "(0x0000000000000000000000000000000000000000000000000000000000000000)x^10 + \
         (0x0000000000000000000000000000000000000000000000000000000000000000)x^11"
    ));
    assert_eq!(text.matches(" + ").count(), 11);
}
