use kzg::kzg::{commit_and_prove_single, verify_single};
use kzg::kzg_tools::curve::{pairings_agree, G1Point, G2Point};
use kzg::kzg_tools::field::FieldElement;
use kzg::kzg_tools::polynomial::Polynomial;
use kzg::kzg_tools::trusted_setup::setup_from_secret;

fn fe(v: u64) -> FieldElement {
    FieldElement::from_u64(v)
}

fn poly(values: &[u64]) -> Polynomial {
    Polynomial::new(values.iter().map(|v| fe(*v)).collect())
}

fn same_g1(a: &G1Point, b: &G1Point) -> bool {
    pairings_agree(a, &G2Point::generator(), b, &G2Point::generator())
}

fn same_g2(a: &G2Point, b: &G2Point) -> bool {
    pairings_agree(&G1Point::generator(), a, &G1Point::generator(), b)
}

#[test]
fn setup_holds_the_powers_of_the_secret() {
    let setup = setup_from_secret(&fe(3), 3, 2);
    assert_eq!(setup.s_g1.len(), 4);
    assert_eq!(setup.s_g2.len(), 3);
    let g = G1Point::generator();
    let h = G2Point::generator();
    assert!(same_g1(&setup.s_g1[0], &g));
    assert!(same_g1(&setup.s_g1[1], &g.mul(&fe(3))));
    assert!(same_g1(&setup.s_g1[2], &g.mul(&fe(9))));
    assert!(same_g1(&setup.s_g1[3], &g.mul(&fe(27))));
    assert!(!same_g1(&setup.s_g1[3], &g.mul(&fe(28))));
    assert!(same_g2(&setup.s_g2[0], &h));
    assert!(same_g2(&setup.s_g2[1], &h.mul(&fe(3))));
    assert!(same_g2(&setup.s_g2[2], &h.mul(&fe(9))));
}

#[test]
fn commitment_is_the_value_at_the_secret() {
    // p(5) = 3 + 2*5 + 25 = 38
    let setup = setup_from_secret(&fe(5), 2, 2);
    let p = poly(&[3, 2, 1]);
    let in_g1 = setup.commit_g1(&p).unwrap();
    assert!(same_g1(&in_g1, &G1Point::generator().mul(&fe(38))));
    assert!(!same_g1(&in_g1, &G1Point::generator().mul(&fe(39))));
    let in_g2 = setup.commit_g2(&p).unwrap();
    assert!(same_g2(&in_g2, &G2Point::generator().mul(&fe(38))));
    // the commitment to nothing is the identity
    let nothing = setup.commit_g1(&poly(&[])).unwrap();
    assert!(same_g1(&nothing, &G1Point::generator().mul(&fe(0))));
}

#[test]
fn group_operations_act_on_the_scalars() {
    let g = G1Point::generator();
    let h = G2Point::generator();
    let five = g.mul(&fe(5));
    let seven = g.mul(&fe(7));
    assert!(same_g1(&five.add(&seven), &g.mul(&fe(12))));
    assert!(same_g1(&seven.sub(&five), &g.mul(&fe(2))));
    assert!(same_g1(&five.mul(&fe(7)), &g.mul(&fe(35))));
    assert!(same_g2(&h.mul(&fe(5)).add(&h.mul(&fe(7))), &h.mul(&fe(12))));
    assert!(same_g2(&h.mul(&fe(7)).sub(&h.mul(&fe(5))), &h.mul(&fe(2))));
    // e(5 G, 7 H) = e(35 G, H) = e(G, 35 H)
    assert!(pairings_agree(&five, &h.mul(&fe(7)), &g.mul(&fe(35)), &h));
    assert!(pairings_agree(&five, &h.mul(&fe(7)), &g, &h.mul(&fe(35))));
    assert!(!pairings_agree(&five, &h.mul(&fe(7)), &g.mul(&fe(36)), &h));
}

#[test]
fn proof_under_a_known_secret_carries_the_quotient() {
    // p = 3 + 2X + X^2 at z = 5: the quotient is X + 7, which is 9 at the secret 2
    let setup = setup_from_secret(&fe(2), 2, 1);
    let p = poly(&[3, 2, 1]);
    let proof = commit_and_prove_single(&p, fe(5), &setup).unwrap();
    assert!(same_g1(&proof.quotient_commitment, &G1Point::generator().mul(&fe(9))));
    // p(2) = 11
    assert!(same_g1(&proof.polynomial_commitment, &G1Point::generator().mul(&fe(11))));
    assert!(verify_single(&proof, fe(5), &setup));
}
