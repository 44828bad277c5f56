//! Opening a committed polynomial at a single point.
//!
//! The prover commits to a polynomial `p` and, challenged with a point `z`,
//! claims `p(z) = y`. The proof is a commitment to the quotient
//! `(p - y) / (X - z)`, which is a polynomial exactly when the claim is
//! true. The verifier checks `e(pi, [s - z]_2) = e(C - [y]_1, H)`.

use crate::kzg_tools::curve::{G1Point, G2Point, pairings_agree};
use crate::kzg_tools::error::KzgError;
use crate::kzg_tools::evaluation::Evaluation;
use crate::kzg_tools::field::{FieldElement, field_sub};
use crate::kzg_tools::modular::{
    canonical, congruent, lemma_canonical_fixed, lemma_congruent_add, lemma_congruent_canonical,
    lemma_congruent_mul, lemma_congruent_sub, lemma_congruent_zero_mul, lemma_reduce, modulus,
    power_mod,
};
use crate::kzg_tools::poly_lemmas::{
    lemma_eval_constant, lemma_eval_division, lemma_eval_linear_factor, lemma_eval_sub,
};
use crate::kzg_tools::poly_spec::{
    canonical_poly, eval_int, is_division, linear_factor, poly_eval, poly_sub,
};
use crate::kzg_tools::polynomial::{Polynomial, all_wf, values};
use crate::kzg_tools::trusted_setup::{
    TrustedSetup, combination, g1_scalars, g2_scalars, lemma_combination_of_powers,
};
use vstd::arithmetic::power::lemma_pow1;
use vstd::prelude::*;

verus! {

/// A commitment to a polynomial, a commitment to the quotient that
/// witnesses one of its values, and that value.
pub struct Proof {
    pub polynomial_commitment: G1Point,
    pub quotient_commitment: G1Point,
    pub y: Evaluation,
}

/// `q` is the quotient that witnesses the value `y` of `p` at `z`: it has
/// canonical coefficients and `p - y = q * (X - z)`, with no remainder.
pub open spec fn is_witness(p: Seq<int>, z: int, y: int, q: Seq<int>) -> bool {
    canonical_poly(q) && is_division(poly_sub(p, seq![y]), linear_factor(z), q, seq![0])
}

/// The pairing equation of the single-point scheme, on the scalars of the
/// points: `pi * (s - z) = c - y`, where `s` is the scalar of the second
/// power in G2.
pub open spec fn pairing_equation(pi: int, s: int, z: int, c: int, y: int) -> bool {
    congruent(pi * (s - z), c - y)
}

/// Whether the verifier accepts the proof for the point `z`.
pub open spec fn accepts_single(proof: Proof, z: int, setup: TrustedSetup) -> bool {
    pairing_equation(
        proof.quotient_commitment@,
        setup.s_g2@[1]@,
        z,
        proof.polynomial_commitment@,
        proof.y@,
    )
}

/// A quotient that witnesses `p(z) = y` satisfies the pairing equation at
/// every secret scalar.
pub proof fn lemma_witness_satisfies_equation(p: Seq<int>, z: int, y: int, q: Seq<int>, s: int)
    requires
        is_witness(p, z, y, q),
    ensures
        pairing_equation(poly_eval(q, s), power_mod(s, 1), z, poly_eval(p, s), y),
{
    let n = poly_sub(p, seq![y]);
    let d = linear_factor(z);
    lemma_eval_division(n, d, q, seq![0], s);
    lemma_eval_constant(0, s);
    lemma_eval_linear_factor(z, s);
    lemma_eval_sub(p, seq![y], s);
    lemma_eval_constant(y, s);
    // n(s) == p(s) - y, and n(s) == q(s) * d(s) == q(s) * (s - z)
    lemma_pow1(s);
    lemma_reduce(s);
    lemma_congruent_sub(power_mod(s, 1), s, z, z);
    lemma_reduce(eval_int(q, s));
    lemma_congruent_mul(poly_eval(q, s), eval_int(q, s), power_mod(s, 1) - z, eval_int(d, s));
    lemma_reduce(eval_int(p, s));
    lemma_congruent_sub(poly_eval(p, s), eval_int(p, s), y, y);
}

/// Dividing `p - y` by `X - z` leaves the remainder `p(z) - y`: none
/// exactly when the claimed value is the value of the polynomial.
proof fn lemma_remainder_is_error(p: Seq<int>, z: int, y: int, q: Seq<int>, r: Seq<int>)
    requires
        is_division(poly_sub(p, seq![y]), linear_factor(z), q, r),
        canonical_poly(r),
        canonical(y),
    ensures
        r.len() == 1,
        (r[0] == 0) == (y == poly_eval(p, z)),
        r[0] == 0 ==> r == seq![0int],
{
    let n = poly_sub(p, seq![y]);
    let d = linear_factor(z);
    lemma_eval_division(n, d, q, r, z);
    lemma_eval_linear_factor(z, z);
    lemma_eval_sub(p, seq![y], z);
    lemma_eval_constant(y, z);
    lemma_reduce(eval_int(p, z));
    // d(z) is zero, so r(z) == n(z) == p(z) - y
    lemma_congruent_zero_mul(eval_int(d, z), eval_int(q, z));
    lemma_congruent_add(eval_int(q, z) * eval_int(d, z), 0, eval_int(r, z), eval_int(r, z));
    assert(r.len() == 1);
    assert(r =~= seq![r[0]]);
    lemma_eval_constant(r[0], z);
    assert(congruent(r[0], eval_int(p, z) - y));
    if r[0] == 0 {
        lemma_congruent_add(eval_int(p, z) - y, 0, y, y);
        lemma_congruent_canonical(y, poly_eval(p, z));
    }
    if y == poly_eval(p, z) {
        lemma_congruent_sub(eval_int(p, z), y, y, y);
        lemma_congruent_canonical(r[0], 0);
    }
}

/// A proof that the verifier accepts is rejected once its value is replaced
/// by any other.
pub proof fn lemma_tampered_value_is_rejected(
    proof: Proof,
    tampered: Proof,
    z: int,
    setup: TrustedSetup,
)
    requires
        accepts_single(proof, z, setup),
        tampered.polynomial_commitment == proof.polynomial_commitment,
        tampered.quotient_commitment == proof.quotient_commitment,
        proof.y.wf(),
        tampered.y.wf(),
        tampered.y@ != proof.y@,
    ensures
        !accepts_single(tampered, z, setup),
{
    let c = proof.polynomial_commitment@;
    let y = proof.y@;
    let other = tampered.y@;
    if accepts_single(tampered, z, setup) {
        // c - y and c - other are congruent, and so are y and other
        lemma_congruent_sub(c, c, c - y, c - other);
        assert(c - (c - y) == y);
        assert(c - (c - other) == other);
        lemma_congruent_canonical(y, other);
    }
}

/// The quotient `(p - y) / (X - z)` that witnesses the claim `p(z) = y`.
/// There is one exactly when the claim is true: a false claim fails with
/// `InvalidWitness`. A polynomial of fewer than two coefficients fails with
/// `DegreeMismatch`.
pub fn compute_quotient(polynomial: &Polynomial, z: FieldElement, y: FieldElement) -> (r: Result<
    Polynomial,
    KzgError,
>)
    requires
        polynomial.wf(),
        z.wf(),
        y.wf(),
    ensures
        polynomial.coeff.len() < 2 ==> r == Err::<Polynomial, KzgError>(KzgError::DegreeMismatch),
        polynomial.coeff.len() >= 2 && y@ != poly_eval(polynomial@, z@) ==> r == Err::<
            Polynomial,
            KzgError,
        >(KzgError::InvalidWitness),
        polynomial.coeff.len() >= 2 && y@ == poly_eval(polynomial@, z@) ==> r.is_ok(),
        r matches Ok(q) ==> q.wf() && is_witness(polynomial@, z@, y@, q@),
{
    let n_len = polynomial.coeff.len();
    if n_len < 2 {
        return Err(KzgError::DegreeMismatch);
    }
    let ghost p = polynomial@;
    // the numerator: the polynomial less `y` in its constant term
    let mut num_coeff: Vec<FieldElement> = Vec::new();
    num_coeff.push(field_sub(&polynomial.coeff[0], &y));
    let mut i: usize = 1;
    while i < n_len
        invariant
            1 <= i <= n_len,
            n_len == polynomial.coeff.len(),
            polynomial.wf(),
            num_coeff.len() == i,
            all_wf(num_coeff@),
            num_coeff@[0]@ == (polynomial.coeff@[0]@ - y@) % modulus(),
            forall|k: int| 1 <= k < i ==> #[trigger] num_coeff@[k] == polynomial.coeff@[k],
        decreases n_len - i,
    {
        num_coeff.push(polynomial.coeff[i]);
        i += 1;
    }
    let mut num = Polynomial::new(num_coeff);
    proof {
        assert forall|k: int| 0 <= k < n_len implies #[trigger] num@[k] == poly_sub(
            p,
            seq![y@],
        )[k] by {
            if k > 0 {
                lemma_canonical_fixed(p[k]);
            } else {
                assert(seq![y@][0] == y@);
            }
        }
        assert(num@ =~= poly_sub(p, seq![y@]));
    }
    let mut den: Vec<FieldElement> = Vec::new();
    den.push(field_sub(&FieldElement::zero(), &z));
    den.push(FieldElement::one());
    proof {
        assert(values(den@) =~= linear_factor(z@));
        assert(den@.last() == den@[1]);
    }
    let (q_x, remainder) = match num.div_poly(den) {
        Ok(parts) => parts,
        Err(e) => {
            return Err(e);
        },
    };
    proof {
        assert(canonical_poly(remainder@));
        lemma_remainder_is_error(p, z@, y@, q_x@, remainder@);
        assert(canonical_poly(q_x@));
    }
    if !remainder.coeff[0].is_zero() {
        return Err(KzgError::InvalidWitness);
    }
    Ok(q_x)
}

/// Commits to the polynomial and proves its value at `z`. Fails with
/// `SetupTooSmall` where the setup holds fewer powers in G1 than the
/// polynomial has coefficients, and else with `DegreeMismatch` for a
/// polynomial of fewer than two coefficients, which `X - z` cannot divide.
/// Under a well-formed setup the verifier accepts the proof.
pub fn commit_and_prove_single(
    polynomial: &Polynomial,
    z: FieldElement,
    setup: &TrustedSetup,
) -> (r: Result<Proof, KzgError>)
    requires
        polynomial.wf(),
        z.wf(),
    ensures
        setup.s_g1.len() < polynomial.coeff.len() ==> r == Err::<Proof, KzgError>(
            KzgError::SetupTooSmall,
        ),
        setup.s_g1.len() >= polynomial.coeff.len() && polynomial.coeff.len() < 2 ==> r == Err::<
            Proof,
            KzgError,
        >(KzgError::DegreeMismatch),
        setup.s_g1.len() >= polynomial.coeff.len() >= 2 ==> r.is_ok(),
        r matches Ok(proof) ==> {
            &&& proof.y.wf()
            &&& proof.y@ == poly_eval(polynomial@, z@)
            &&& proof.polynomial_commitment@ == combination(polynomial@, g1_scalars(setup.s_g1@))
            &&& exists|q: Seq<int>|
                is_witness(polynomial@, z@, proof.y@, q) && proof.quotient_commitment@
                    == combination(q, g1_scalars(setup.s_g1@))
            &&& setup.wf() && setup.s_g2.len() >= 2 ==> accepts_single(proof, z@, *setup)
        },
{
    if setup.s_g1.len() < polynomial.coeff.len() {
        return Err(KzgError::SetupTooSmall);
    }
    let y = polynomial.eval(z);
    let q_x = match compute_quotient(polynomial, z, y.evaluation) {
        Ok(q) => q,
        Err(e) => {
            return Err(e);
        },
    };
    let ghost p = polynomial@;
    let pi = match setup.commit_g1(&q_x) {
        Ok(c) => c,
        Err(e) => {
            return Err(e);
        },
    };
    let polynomial_commitment = match setup.commit_g1(polynomial) {
        Ok(c) => c,
        Err(e) => {
            return Err(e);
        },
    };
    let proof = Proof { polynomial_commitment, quotient_commitment: pi, y };
    proof {
        if setup.wf() && setup.s_g2.len() >= 2 {
            let s = setup.secret();
            assert(setup.holds_powers_of(s));
            lemma_combination_of_powers(q_x@, g1_scalars(setup.s_g1@), s);
            lemma_combination_of_powers(p, g1_scalars(setup.s_g1@), s);
            assert(g2_scalars(setup.s_g2@)[1] == power_mod(s, 1));
            lemma_witness_satisfies_equation(p, z@, y@, q_x@, s);
        }
    }
    Ok(proof)
}

/// Checks the pairing equation for the proof at the point `z`. The setup
/// holds at least the first two powers in G2.
pub fn verify_single(proof: &Proof, z: FieldElement, setup: &TrustedSetup) -> (r: bool)
    requires
        proof.y.wf(),
        z.wf(),
        setup.s_g2.len() >= 2,
    ensures
        r == accepts_single(*proof, z@, *setup),
{
    let y_g1 = G1Point::generator().mul(&proof.y.evaluation);
    let c_y = proof.polynomial_commitment.sub(&y_g1);
    let z_g2 = G2Point::generator().mul(&z);
    let s_z = setup.s_g2[1].sub(&z_g2);
    let h = G2Point::generator();
    proof {
        let pi = proof.quotient_commitment@;
        let c = proof.polynomial_commitment@;
        let s = setup.s_g2@[1]@;
        assert(1 * proof.y@ == proof.y@);
        assert(1 * z@ == z@);
        lemma_canonical_fixed(proof.y@);
        lemma_canonical_fixed(z@);
        lemma_reduce(s - z@);
        lemma_reduce(c - proof.y@);
        lemma_congruent_mul(pi, pi, s_z@, s - z@);
        assert(c_y@ * 1 == c_y@);
    }
    pairings_agree(&proof.quotient_commitment, &s_z, &c_y, &h)
}

} // verus!
