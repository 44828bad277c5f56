//! Opening a committed polynomial at several points with one proof.
//!
//! For `k` distinct points `z_i` with values `y_i = p(z_i)`, the
//! interpolation polynomial `I` through them agrees with `p` at every point,
//! so `p - I` is divisible by the zero polynomial `Z = (X - z_0) ... (X -
//! z_{k-1})`. The proof is a commitment to the quotient; the verifier checks
//! `e(pi, [Z(s)]_2) = e(C - [I(s)]_1, H)`.

use crate::kzg_tools::curve::{G1Point, G2Point, pairings_agree};
use crate::kzg_tools::error::KzgError;
use crate::kzg_tools::field::{FieldElement, field_sub};
use crate::kzg_tools::interpolation::{evaluations, interpolates};
use crate::kzg_tools::modular::{
    canonical, congruent, lemma_canonical_fixed, lemma_congruent_add, lemma_congruent_canonical,
    lemma_congruent_mul, lemma_congruent_sub, lemma_congruent_zero_mul, lemma_reduce,
};
use crate::kzg_tools::poly_lemmas::{
    lemma_eval_constant, lemma_eval_division, lemma_eval_linear_factor, lemma_eval_mul,
    lemma_eval_sub,
};
use crate::kzg_tools::poly_spec::{
    canonical_poly, convolution, cross_term, eval_int, is_division, linear_factor, poly_eval,
    poly_mul, poly_sub,
};
use crate::kzg_tools::polynomial::{Polynomial, all_wf, values};
use crate::kzg_tools::roots::{lemma_roots_force_zero, pairwise_distinct, pairwise_units};
use crate::kzg_tools::sums::sum;
use crate::kzg_tools::trusted_setup::{
    TrustedSetup, combination, g1_scalars, g2_scalars, lemma_combination_of_powers,
};
use vstd::prelude::*;

verus! {

/// Commitments to the polynomial, to the quotient, to the interpolation
/// polynomial, and, in G2, to the zero polynomial.
pub struct MultiProof {
    pub polynomial_commitment: G1Point,
    pub quotient_commitment: G1Point,
    pub interpolation_polynomial_commitment: G1Point,
    pub zero_polynomial_commitment: G2Point,
}

/// The zero polynomial of the points: the product of the `X - z_i`.
pub open spec fn vanishing(z: Seq<int>) -> Seq<int>
    decreases z.len(),
{
    if z.len() == 0 {
        seq![1int]
    } else {
        poly_mul(linear_factor(z.last()), vanishing(z.drop_last()))
    }
}

/// `interp` is the interpolation polynomial of `p` at the points, and `q`
/// the quotient of `p - interp` by the zero polynomial, with no remainder.
pub open spec fn is_multi_witness(p: Seq<int>, z: Seq<int>, interp: Seq<int>, q: Seq<int>) -> bool {
    &&& canonical_poly(interp)
    &&& canonical_poly(q)
    &&& interp.len() == z.len()
    &&& interpolates(interp, z, evaluations(p, z))
    &&& is_division(poly_sub(p, interp), vanishing(z), q, seq![0int])
}

/// The pairing equation of the multi-point scheme, on the scalars of the
/// points: `pi * zero = c - interp`.
pub open spec fn multi_pairing_equation(pi: int, zero: int, c: int, interp: int) -> bool {
    congruent(pi * zero, c - interp)
}

/// Whether the verifier accepts the proof.
pub open spec fn accepts_multi(proof: MultiProof) -> bool {
    multi_pairing_equation(
        proof.quotient_commitment@,
        proof.zero_polynomial_commitment@,
        proof.polynomial_commitment@,
        proof.interpolation_polynomial_commitment@,
    )
}

/// The zero polynomial has one coefficient more than there are points, all
/// canonical, and the leading one is one.
pub proof fn lemma_vanishing_shape(z: Seq<int>)
    ensures
        vanishing(z).len() == z.len() + 1,
        vanishing(z).last() == 1,
        canonical_poly(vanishing(z)),
    decreases z.len(),
{
    if z.len() > 0 {
        let rest = vanishing(z.drop_last());
        let d = linear_factor(z.last());
        lemma_vanishing_shape(z.drop_last());
        let top = z.len() as int;
        let f = cross_term(d, rest, top);
        assert(sum(f, 2) == sum(f, 1) + f(1));
        assert(sum(f, 1) == sum(f, 0) + f(0));
        assert(d[1] == 1);
        assert(d[0] * 0 == 0);
        assert(1 * rest.last() == 1);
        assert(convolution(d, rest, top) == 1);
        lemma_canonical_fixed(1);
        assert forall|k: int| 0 <= k < vanishing(z).len() implies canonical(
            #[trigger] vanishing(z)[k],
        ) by {
            lemma_reduce(convolution(d, rest, k));
        }
    }
}

/// The zero polynomial vanishes at each of its points.
pub proof fn lemma_vanishing_roots(z: Seq<int>, m: int)
    requires
        0 <= m < z.len(),
    ensures
        congruent(eval_int(vanishing(z), z[m]), 0),
    decreases z.len(),
{
    let rest = vanishing(z.drop_last());
    let d = linear_factor(z.last());
    lemma_eval_mul(d, rest, z[m]);
    if m == z.len() - 1 {
        lemma_eval_linear_factor(z.last(), z[m]);
        lemma_congruent_zero_mul(eval_int(d, z[m]), eval_int(rest, z[m]));
    } else {
        lemma_vanishing_roots(z.drop_last(), m);
        assert(z.drop_last()[m] == z[m]);
        lemma_congruent_zero_mul(eval_int(rest, z[m]), eval_int(d, z[m]));
    }
}

/// Where `p` and `interp` agree at all the points, dividing `p - interp`
/// by the zero polynomial leaves no remainder.
proof fn lemma_multi_remainder_vanishes(
    p: Seq<int>,
    z: Seq<int>,
    interp: Seq<int>,
    q: Seq<int>,
    r: Seq<int>,
)
    requires
        is_division(poly_sub(p, interp), vanishing(z), q, r),
        canonical_poly(r),
        interpolates(interp, z, evaluations(p, z)),
        pairwise_units(z),
    ensures
        r == seq![0int],
{
    lemma_vanishing_shape(z);
    if r != seq![0int] {
        assert forall|m: int| 0 <= m < z.len() implies congruent(
            eval_int(r, #[trigger] z[m]),
            0,
        ) by {
            let x = z[m];
            lemma_eval_division(poly_sub(p, interp), vanishing(z), q, r, x);
            lemma_eval_sub(p, interp, x);
            lemma_vanishing_roots(z, m);
            assert(poly_eval(interp, x) == evaluations(p, z)[m]);
            lemma_congruent_sub(
                eval_int(p, x),
                eval_int(interp, x),
                eval_int(interp, x),
                eval_int(interp, x),
            );
            lemma_congruent_zero_mul(eval_int(vanishing(z), x), eval_int(q, x));
            lemma_congruent_add(
                eval_int(q, x) * eval_int(vanishing(z), x),
                0,
                eval_int(r, x),
                eval_int(r, x),
            );
        }
        lemma_roots_force_zero(r, z);
        assert forall|k: int| 0 <= k < r.len() implies #[trigger] r[k] == 0 by {
            lemma_congruent_canonical(r[k], 0);
        }
        assert(r =~= seq![0int]);
    }
}

/// A witness of the values at the points satisfies the pairing equation at
/// every secret scalar.
pub proof fn lemma_multi_witness_satisfies_equation(
    p: Seq<int>,
    z: Seq<int>,
    interp: Seq<int>,
    q: Seq<int>,
    s: int,
)
    requires
        is_multi_witness(p, z, interp, q),
    ensures
        multi_pairing_equation(
            poly_eval(q, s),
            poly_eval(vanishing(z), s),
            poly_eval(p, s),
            poly_eval(interp, s),
        ),
{
    lemma_eval_division(poly_sub(p, interp), vanishing(z), q, seq![0int], s);
    lemma_eval_constant(0, s);
    lemma_eval_sub(p, interp, s);
    lemma_reduce(eval_int(q, s));
    lemma_reduce(eval_int(vanishing(z), s));
    lemma_reduce(eval_int(p, s));
    lemma_reduce(eval_int(interp, s));
    lemma_congruent_mul(
        poly_eval(q, s),
        eval_int(q, s),
        poly_eval(vanishing(z), s),
        eval_int(vanishing(z), s),
    );
    lemma_congruent_sub(poly_eval(p, s), eval_int(p, s), poly_eval(interp, s), eval_int(interp, s));
}

/// A copy of the elements.
fn copy_elements(v: &Vec<FieldElement>) -> (r: Vec<FieldElement>)
    ensures
        r@ == v@,
{
    let mut out: Vec<FieldElement> = Vec::new();
    let mut i: usize = 0;
    while i < v.len()
        invariant
            i <= v.len(),
            out@ == v@.take(i as int),
        decreases v.len() - i,
    {
        out.push(v[i]);
        assert(out@ =~= v@.take(i + 1));
        i += 1;
    }
    assert(out@ =~= v@);
    out
}

/// The zero polynomial of the points.
pub fn zero_polynomial(z_points: &Vec<FieldElement>) -> (r: Polynomial)
    requires
        all_wf(z_points@),
        z_points.len() < usize::MAX - 1,
    ensures
        r.wf(),
        r@ == vanishing(values(z_points@)),
{
    let ghost z = values(z_points@);
    let mut coeff: Vec<FieldElement> = Vec::new();
    coeff.push(FieldElement::one());
    let mut zero = Polynomial::new(coeff);
    let mut i: usize = 0;
    proof {
        assert(z.take(0).len() == 0);
        assert(zero@ =~= vanishing(z.take(0)));
    }
    while i < z_points.len()
        invariant
            i <= z_points.len(),
            z_points.len() < usize::MAX - 1,
            all_wf(z_points@),
            z == values(z_points@),
            zero.wf(),
            zero@ == vanishing(z.take(i as int)),
        decreases z_points.len() - i,
    {
        let mut factor: Vec<FieldElement> = Vec::new();
        factor.push(field_sub(&FieldElement::zero(), &z_points[i]));
        factor.push(FieldElement::one());
        let linear = Polynomial::new(factor);
        proof {
            lemma_vanishing_shape(z.take(i as int));
            assert(linear@ =~= linear_factor(z[i as int]));
            assert(z.take(i + 1).drop_last() =~= z.take(i as int));
            assert(z.take(i + 1).last() == z[i as int]);
        }
        zero = linear.mul_poly(zero.coeff);
        i += 1;
    }
    proof {
        assert(z.take(z_points.len() as int) =~= z);
    }
    zero
}

/// Commits to the polynomial and proves its values at the given points.
/// Fails with `TooManyOpeningPoints` unless there are fewer points than the
/// degree of the polynomial, which is one less than the number of its
/// coefficients; else with `SetupTooSmall` where the setup holds fewer
/// powers in G1 than the polynomial has coefficients, or no more powers in
/// G2 than there are points; else with `InterpolationDegeneracy` where two
/// points coincide. Under a well-formed setup the verifier accepts the
/// proof.
pub fn commit_and_prove_multi(
    polynomial: &Polynomial,
    z_points: Vec<FieldElement>,
    setup: &TrustedSetup,
) -> (r: Result<MultiProof, KzgError>)
    requires
        polynomial.wf(),
        all_wf(z_points@),
    ensures
        polynomial.coeff.len() < z_points.len() + 2 ==> r == Err::<MultiProof, KzgError>(
            KzgError::TooManyOpeningPoints,
        ),
        polynomial.coeff.len() >= z_points.len() + 2 && (setup.s_g1.len() < polynomial.coeff.len()
            || setup.s_g2.len() <= z_points.len()) ==> r == Err::<MultiProof, KzgError>(
            KzgError::SetupTooSmall,
        ),
        polynomial.coeff.len() >= z_points.len() + 2 && setup.s_g1.len() >= polynomial.coeff.len()
            && setup.s_g2.len() > z_points.len() && !pairwise_distinct(values(z_points@)) ==> r
            == Err::<MultiProof, KzgError>(KzgError::InterpolationDegeneracy),
        polynomial.coeff.len() >= z_points.len() + 2 && setup.s_g1.len() >= polynomial.coeff.len()
            && setup.s_g2.len() > z_points.len() && pairwise_distinct(values(z_points@))
            ==> r.is_ok(),
        r matches Ok(proof) ==> {
            &&& proof.polynomial_commitment@ == combination(polynomial@, g1_scalars(setup.s_g1@))
            &&& proof.zero_polynomial_commitment@ == combination(
                vanishing(values(z_points@)),
                g2_scalars(setup.s_g2@),
            )
            &&& exists|interp: Seq<int>, q: Seq<int>|
                {
                    &&& is_multi_witness(polynomial@, values(z_points@), interp, q)
                    &&& proof.interpolation_polynomial_commitment@ == combination(
                        interp,
                        g1_scalars(setup.s_g1@),
                    )
                    &&& proof.quotient_commitment@ == combination(q, g1_scalars(setup.s_g1@))
                }
            &&& setup.wf() ==> accepts_multi(proof)
        },
{
    let n_len = polynomial.coeff.len();
    let k = z_points.len();
    if n_len < 2 || k > n_len - 2 {
        return Err(KzgError::TooManyOpeningPoints);
    }
    if setup.s_g1.len() < n_len || setup.s_g2.len() <= k {
        return Err(KzgError::SetupTooSmall);
    }
    let ghost p = polynomial@;
    let ghost z = values(z_points@);
    let mut y_points: Vec<FieldElement> = Vec::new();
    let mut i: usize = 0;
    while i < k
        invariant
            i <= k,
            k == z_points.len(),
            polynomial.wf(),
            all_wf(z_points@),
            p == polynomial@,
            z == values(z_points@),
            y_points.len() == i,
            all_wf(y_points@),
            forall|m: int| 0 <= m < i ==> (#[trigger] y_points@[m])@ == poly_eval(p, z[m]),
        decreases k - i,
    {
        let eval = polynomial.eval(z_points[i]);
        y_points.push(eval.evaluation);
        i += 1;
    }
    proof {
        assert(values(y_points@) =~= evaluations(p, z));
    }
    let interpolation_polynomial = match polynomial.lagrange(copy_elements(&z_points), y_points) {
        Ok(interp) => interp,
        Err(e) => {
            return Err(e);
        },
    };
    let zero = zero_polynomial(&z_points);
    proof {
        lemma_vanishing_shape(z);
    }
    let zero_polynomial_commitment = match setup.commit_g2(&zero) {
        Ok(c) => c,
        Err(e) => {
            return Err(e);
        },
    };
    let mut difference = polynomial.sub_poly(copy_elements(&interpolation_polynomial.coeff));
    let (quotient_polynomial, remainder) = match difference.div_poly(zero.coeff) {
        Ok(parts) => parts,
        Err(e) => {
            return Err(e);
        },
    };
    proof {
        assert(canonical_poly(remainder@));
        assert(canonical_poly(quotient_polynomial@));
        assert(canonical_poly(interpolation_polynomial@));
        lemma_multi_remainder_vanishes(
            p,
            z,
            interpolation_polynomial@,
            quotient_polynomial@,
            remainder@,
        );
        assert(is_multi_witness(p, z, interpolation_polynomial@, quotient_polynomial@));
    }
    let quotient_commitment = match setup.commit_g1(&quotient_polynomial) {
        Ok(c) => c,
        Err(e) => {
            return Err(e);
        },
    };
    let polynomial_commitment = match setup.commit_g1(polynomial) {
        Ok(c) => c,
        Err(e) => {
            return Err(e);
        },
    };
    let interpolation_polynomial_commitment = match setup.commit_g1(&interpolation_polynomial) {
        Ok(c) => c,
        Err(e) => {
            return Err(e);
        },
    };
    let proof = MultiProof {
        polynomial_commitment,
        quotient_commitment,
        interpolation_polynomial_commitment,
        zero_polynomial_commitment,
    };
    proof {
        if setup.wf() {
            let s = setup.secret();
            assert(setup.holds_powers_of(s));
            lemma_combination_of_powers(quotient_polynomial@, g1_scalars(setup.s_g1@), s);
            lemma_combination_of_powers(p, g1_scalars(setup.s_g1@), s);
            lemma_combination_of_powers(interpolation_polynomial@, g1_scalars(setup.s_g1@), s);
            lemma_combination_of_powers(vanishing(z), g2_scalars(setup.s_g2@), s);
            lemma_multi_witness_satisfies_equation(
                p,
                z,
                interpolation_polynomial@,
                quotient_polynomial@,
                s,
            );
        }
    }
    Ok(proof)
}

/// Checks the pairing equation for the proof. The equation involves the
/// commitments of the proof and the generator of G2 only; the parameters
/// themselves are not consulted.
pub fn verify_multi(proof: &MultiProof, _setup: &TrustedSetup) -> (r: bool)
    ensures
        r == accepts_multi(*proof),
{
    let poly_com_sub_int = proof.polynomial_commitment.sub(
        &proof.interpolation_polynomial_commitment,
    );
    let h = G2Point::generator();
    proof {
        let c = proof.polynomial_commitment@;
        let interp = proof.interpolation_polynomial_commitment@;
        lemma_reduce(c - interp);
        assert(poly_com_sub_int@ * 1 == poly_com_sub_int@);
    }
    pairings_agree(
        &proof.quotient_commitment,
        &proof.zero_polynomial_commitment,
        &poly_com_sub_int,
        &h,
    )
}

} // verus!
