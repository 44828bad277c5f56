use kzg::kzg_tools::error::KzgError;
use kzg::kzg_tools::evaluation::Evaluation;
use kzg::kzg_tools::field::FieldElement;

const MODULUS: [u64; 4] = [
    0x43e1f593f0000001,
    0x2833e84879b97091,
    0xb85045b68181585d,
    0x30644e72e131a029,
];

fn ev(v: u64) -> Evaluation {
    Evaluation::new(FieldElement::from_u64(v))
}

#[test]
fn small_numbers_are_their_own_limbs() {
    assert_eq!(FieldElement::zero().limbs(), [0, 0, 0, 0]);
    assert_eq!(FieldElement::one().limbs(), [1, 0, 0, 0]);
    assert_eq!(FieldElement::from_u64(77).limbs(), [77, 0, 0, 0]);
    assert_eq!(
        FieldElement::from_u128(0x0123456789abcdef_fedcba9876543210).limbs(),
        [0xfedcba9876543210, 0x0123456789abcdef, 0, 0]
    );
    assert!(FieldElement::zero().is_zero());
    assert!(!FieldElement::one().is_zero());
    assert!(FieldElement::from_u64(5).equals(&FieldElement::from_u128(5)));
    assert!(!FieldElement::from_u64(5).equals(&FieldElement::from_u64(6)));
}

#[test]
fn limbs_below_the_modulus_are_accepted() {
    let mut largest = MODULUS;
    largest[0] -= 1;
    assert_eq!(FieldElement::from_limbs(largest).unwrap().limbs(), largest);
    assert_eq!(FieldElement::from_limbs([9, 8, 7, 6]).unwrap().limbs(), [9, 8, 7, 6]);
    assert!(FieldElement::from_limbs(MODULUS).is_none());
    assert!(FieldElement::from_limbs([0, 0, 0, 0x30644e72e131a02a]).is_none());
    assert!(FieldElement::from_limbs([u64::MAX; 4]).is_none());
}

#[test]
fn evaluation_arithmetic() {
    assert_eq!(ev(5).add(ev(7)).evaluation, FieldElement::from_u64(12));
    assert_eq!(ev(7).sub(ev(5)).evaluation, FieldElement::from_u64(2));
    assert_eq!(ev(7).mul(&ev(5)).evaluation, FieldElement::from_u64(35));
    assert_eq!(ev(35).div(ev(5)).unwrap().evaluation, FieldElement::from_u64(7));
}

#[test]
fn arithmetic_wraps_around_the_modulus() {
    let mut largest = MODULUS;
    largest[0] -= 1;
    let minus_one = Evaluation::new(FieldElement::from_limbs(largest).unwrap());
    assert_eq!(ev(0).sub(ev(1)).evaluation, minus_one.evaluation);
    assert_eq!(minus_one.add(ev(1)).evaluation, FieldElement::zero());
    assert_eq!(minus_one.mul(&minus_one).evaluation, FieldElement::one());
    // 2^128 * 2^128 = 2^256, reduced
    let big = Evaluation::new(FieldElement::from_limbs([0, 0, 1, 0]).unwrap());
    assert_eq!(
        big.mul(&big).evaluation.limbs(),
        [0xac96341c4ffffffb, 0x36fc76959f60cd29, 0x666ea36f7879462e, 0x0e0a77c19a07df2f]
    );
}

#[test]
fn division_inverts_multiplication() {
    let a = Evaluation::new(FieldElement::random());
    let b = ev(123456789);
    let quotient = a.div(b).unwrap();
    assert_eq!(quotient.mul(&b).evaluation, a.evaluation);
    // the inverse of two is (r + 1) / 2
    assert_eq!(
        ev(1).div(ev(2)).unwrap().evaluation.limbs(),
        [0xa1f0fac9f8000001, 0x9419f4243cdcb848, 0xdc2822db40c0ac2e, 0x183227397098d014]
    );
}

#[test]
fn division_by_zero_is_an_error() {
    assert_eq!(ev(5).div(ev(0)).unwrap_err(), KzgError::DivisionByZero);
}

#[test]
fn random_elements_are_canonical_and_differ() {
    let a = FieldElement::random();
    let b = FieldElement::random();
    assert!(FieldElement::from_limbs(a.limbs()).is_some());
    assert!(FieldElement::from_limbs(b.limbs()).is_some());
    assert_ne!(a, b);
}
