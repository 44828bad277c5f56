use kzg::kzg_tools::barycentric::barycentric;
use kzg::kzg_tools::evaluation::Evaluation;
use kzg::kzg_tools::fft::fft;
use kzg::kzg_tools::field::FieldElement;
use kzg::kzg_tools::polynomial::{pow, Polynomial};

fn fe(v: u64) -> FieldElement {
    FieldElement::from_u64(v)
}

fn elements(values: &[u64]) -> Vec<FieldElement> {
    values.iter().map(|v| fe(*v)).collect()
}

fn poly(values: &[u64]) -> Polynomial {
    Polynomial::new(elements(values))
}

fn minus_one() -> FieldElement {
    Evaluation::new(fe(0)).sub(Evaluation::new(fe(1))).evaluation
}

#[test]
fn root_for_one_coefficient_is_one() {
    assert_eq!(poly(&[5]).rou().evaluation, fe(1));
    assert_eq!(poly(&[]).rou().evaluation, fe(1));
}

#[test]
fn root_for_two_coefficients_is_minus_one() {
    assert_eq!(poly(&[5, 6]).rou().evaluation, minus_one());
}

#[test]
fn root_for_four_coefficients_has_order_four() {
    let w = poly(&[1, 2, 3, 4]).rou().evaluation;
    assert_eq!(
        w.limbs(),
        [0x231204708f703636, 0x5cea24f6fd736bec, 0x048b6e193fd84104, 0x30644e72e131a029]
    );
    assert_eq!(pow(w, 2).evaluation, minus_one());
    assert_eq!(pow(w, 4).evaluation, fe(1));
    // three coefficients need the same domain
    assert_eq!(poly(&[1, 2, 3]).rou().evaluation, w);
}

#[test]
fn root_for_eight_coefficients_has_order_eight() {
    let w = poly(&[0; 8]).rou().evaluation;
    assert_eq!(
        w.limbs(),
        [0x948dad4ac1bd5e80, 0x52627366f8170a0a, 0xec9b9e2f96afef36, 0x2b337de1c8c14f22]
    );
    assert_eq!(pow(w, 4).evaluation, minus_one());
    assert_eq!(poly(&[0; 5]).rou().evaluation, w);
}

#[test]
fn transform_of_one_coefficient_is_itself() {
    assert_eq!(fft(poly(&[9]), fe(1)).coeff, elements(&[9]));
}

#[test]
fn transform_of_two_coefficients() {
    // p = 3 + 5X at 1 and -1
    let values = fft(poly(&[3, 5]), minus_one());
    let minus_two = Evaluation::new(fe(3)).sub(Evaluation::new(fe(5))).evaluation;
    assert_eq!(values.coeff, vec![fe(8), minus_two]);
}

#[test]
fn transform_of_four_coefficients() {
    let p = poly(&[1, 2, 3, 4]);
    let w = p.rou().evaluation;
    let values = fft(p.clone(), w);
    assert_eq!(values.coeff[0], fe(10));
    assert_eq!(
        values.coeff[1].limbs(),
        [0x419fe246c11f9394, 0x969386a2f88c094a, 0x6789af3a83522eb1, 0x0000000000000001]
    );
    assert_eq!(
        values.coeff[2].limbs(),
        [0x43e1f593efffffff, 0x2833e84879b97091, 0xb85045b68181585d, 0x30644e72e131a029]
    );
    assert_eq!(
        values.coeff[3].limbs(),
        [0x0242134d2ee06c69, 0x91a061a5812d6747, 0x50c6967bfe2f29ab, 0x30644e72e131a028]
    );
}

#[test]
fn transform_agrees_with_evaluation() {
    let p = Polynomial::create_polynomial(15);
    let w = p.rou().evaluation;
    let values = fft(p.clone(), w);
    assert_eq!(values.coeff.len(), 16);
    for i in 0..16 {
        assert_eq!(values.coeff[i], p.eval(pow(w, i).evaluation).evaluation);
    }
}

#[test]
fn transform_of_three_coefficients_leaves_the_last_entry_zero() {
    // even part [1, 3] and odd part [2], combined over one index only
    let values = fft(poly(&[1, 2, 3]), fe(1));
    assert_eq!(values.coeff, vec![fe(6), fe(2), fe(0)]);
}

#[test]
fn barycentric_agrees_with_evaluation_off_the_domain() {
    let p = Polynomial::create_polynomial(7);
    let w = p.rou().evaluation;
    let x = FieldElement::random();
    assert_eq!(barycentric(p.clone(), w, x).evaluation, p.eval(x).evaluation);
    let q = poly(&[1, 2, 3, 4]);
    let w = q.rou().evaluation;
    // 1 + 2*5 + 3*25 + 4*125 = 586
    assert_eq!(barycentric(q, w, fe(5)).evaluation, fe(586));
}

#[test]
fn barycentric_returns_the_value_on_the_domain() {
    let p = Polynomial::create_polynomial(7);
    let w = p.rou().evaluation;
    for i in 0..8 {
        let x = pow(w, i).evaluation;
        assert_eq!(barycentric(p.clone(), w, x).evaluation, p.eval(x).evaluation);
    }
    assert_eq!(barycentric(poly(&[7]), fe(1), fe(1)).evaluation, fe(7));
    assert_eq!(barycentric(poly(&[7]), fe(1), fe(9)).evaluation, fe(7));
}
