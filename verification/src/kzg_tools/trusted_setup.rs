//! The public parameters of the scheme: the powers of a secret scalar,
//! embedded in both groups.
//!
//! The secret is drawn here by one party and dropped when the parameters
//! are returned. A deployment would replace this by a ceremony in which no
//! single party ever learns it; the parameters are not fit for production.

use crate::kzg_tools::curve::{G1Point, G2Point};
use crate::kzg_tools::error::KzgError;
use crate::kzg_tools::field::{FieldElement, field_random};
use crate::kzg_tools::modular::{
    canonical, congruent, lemma_canonical_fixed, lemma_canonical_reduced, lemma_congruent_mul,
    lemma_reduce, lemma_reduced_add, modulus, power_mod,
};
use crate::kzg_tools::poly_spec::{coefficient, monomial, poly_eval};
use crate::kzg_tools::polynomial::{Polynomial, pow};
use crate::kzg_tools::sums::{lemma_sum_congruent, sum};
use vstd::arithmetic::power;
use vstd::prelude::*;

verus! {

/// The scalars of a sequence of points of G1.
pub open spec fn g1_scalars(s: Seq<G1Point>) -> Seq<int> {
    Seq::new(s.len(), |i: int| s[i]@)
}

/// The scalars of a sequence of points of G2.
pub open spec fn g2_scalars(s: Seq<G2Point>) -> Seq<int> {
    Seq::new(s.len(), |i: int| s[i]@)
}

/// The products of a coefficient with the scalar of its base.
pub open spec fn combination_term(coeffs: Seq<int>, bases: Seq<int>) -> spec_fn(int) -> int {
    |i: int| coefficient(coeffs, i) * coefficient(bases, i)
}

/// The scalar of the linear combination of the bases with the given
/// coefficients.
pub open spec fn combination(coeffs: Seq<int>, bases: Seq<int>) -> int {
    sum(combination_term(coeffs, bases), coeffs.len() as int) % modulus()
}

/// The scalars are the successive powers of `secret`.
pub open spec fn powers_of(scalars: Seq<int>, secret: int) -> bool {
    forall|i: int| 0 <= i < scalars.len() ==> #[trigger] scalars[i] == power_mod(secret, i as nat)
}

/// A combination of the powers of `secret` is the value at `secret` of the
/// polynomial with the coefficients of the combination.
pub proof fn lemma_combination_of_powers(coeffs: Seq<int>, bases: Seq<int>, secret: int)
    requires
        powers_of(bases, secret),
        coeffs.len() <= bases.len(),
    ensures
        combination(coeffs, bases) == poly_eval(coeffs, secret),
{
    assert forall|i: int| 0 <= i < coeffs.len() implies congruent(
        #[trigger] combination_term(coeffs, bases)(i),
        monomial(coeffs, secret)(i),
    ) by {
        assert(bases[i] == power_mod(secret, i as nat));
        lemma_reduce(power::pow(secret, i as nat));
        lemma_congruent_mul(
            coeffs[i],
            coeffs[i],
            bases[i],
            power::pow(secret, i as nat),
        );
    }
    lemma_sum_congruent(
        combination_term(coeffs, bases),
        monomial(coeffs, secret),
        coeffs.len() as int,
    );
}

/// The powers of the secret scalar: in G1 as far as polynomials are to be
/// committed to, in G2 as far as points are to be opened at once.
pub struct TrustedSetup {
    pub s_g1: Vec<G1Point>,
    pub s_g2: Vec<G2Point>,
}

impl Clone for TrustedSetup {
    fn clone(&self) -> (r: Self)
        ensures
            r.s_g1@ == self.s_g1@,
            r.s_g2@ == self.s_g2@,
    {
        let mut s_g1: Vec<G1Point> = Vec::new();
        let mut i: usize = 0;
        while i < self.s_g1.len()
            invariant
                i <= self.s_g1.len(),
                s_g1@ == self.s_g1@.take(i as int),
            decreases self.s_g1.len() - i,
        {
            s_g1.push(self.s_g1[i]);
            assert(s_g1@ =~= self.s_g1@.take(i + 1));
            i += 1;
        }
        assert(s_g1@ =~= self.s_g1@);
        let mut s_g2: Vec<G2Point> = Vec::new();
        let mut j: usize = 0;
        while j < self.s_g2.len()
            invariant
                j <= self.s_g2.len(),
                s_g2@ == self.s_g2@.take(j as int),
            decreases self.s_g2.len() - j,
        {
            s_g2.push(self.s_g2[j]);
            assert(s_g2@ =~= self.s_g2@.take(j + 1));
            j += 1;
        }
        assert(s_g2@ =~= self.s_g2@);
        TrustedSetup { s_g1, s_g2 }
    }
}

impl TrustedSetup {
    /// Both vectors hold the successive powers of `secret`.
    pub open spec fn holds_powers_of(&self, secret: int) -> bool {
        &&& powers_of(g1_scalars(self.s_g1@), secret)
        &&& powers_of(g2_scalars(self.s_g2@), secret)
    }

    /// Both vectors hold the successive powers of one secret scalar.
    pub open spec fn wf(&self) -> bool {
        exists|secret: int| self.holds_powers_of(secret)
    }

    /// The secret scalar behind a well-formed setup.
    pub open spec fn secret(&self) -> int {
        choose|secret: int| self.holds_powers_of(secret)
    }

    /// Commits to a polynomial in G1: the sum of the powers in G1, each
    /// multiplied by its coefficient.
    pub fn commit_g1(&self, polynomial: &Polynomial) -> (r: Result<G1Point, KzgError>)
        requires
            polynomial.wf(),
        ensures
            self.s_g1.len() < polynomial.coeff.len() ==> r == Err::<G1Point, KzgError>(
                KzgError::SetupTooSmall,
            ),
            self.s_g1.len() >= polynomial.coeff.len() ==> r.is_ok() && r.unwrap()@ == combination(
                polynomial@,
                g1_scalars(self.s_g1@),
            ),
    {
        let n = polynomial.coeff.len();
        if self.s_g1.len() < n {
            return Err(KzgError::SetupTooSmall);
        }
        let ghost term = combination_term(polynomial@, g1_scalars(self.s_g1@));
        let mut acc = G1Point::generator().mul(&FieldElement::zero());
        proof {
            assert(1 * 0 == 0);
            lemma_reduce(0);
        }
        let mut i: usize = 0;
        while i < n
            invariant
                i <= n,
                canonical(acc@),
                n == polynomial.coeff.len(),
                n <= self.s_g1.len(),
                polynomial.wf(),
                term == combination_term(polynomial@, g1_scalars(self.s_g1@)),
                congruent(acc@, sum(term, i as int)),
            decreases n - i,
        {
            let t = self.s_g1[i].mul(&polynomial.coeff[i]);
            proof {
                assert(term(i as int) == polynomial.coeff@[i as int]@ * self.s_g1@[i as int]@);
                assert(self.s_g1@[i as int]@ * polynomial.coeff@[i as int]@ == term(i as int))
                    by (nonlinear_arith)
                    requires
                        term(i as int) == polynomial.coeff@[i as int]@ * self.s_g1@[i as int]@,
                ;
                lemma_reduce(term(i as int));
                lemma_reduced_add(acc@, sum(term, i as int), t@, term(i as int));
                lemma_reduce(acc@ + t@);
            }
            acc = acc.add(&t);
            i += 1;
        }
        proof {
            lemma_canonical_reduced(acc@, sum(term, n as int));
        }
        Ok(acc)
    }

    /// Commits to a polynomial in G2: the sum of the powers in G2, each
    /// multiplied by its coefficient.
    pub fn commit_g2(&self, polynomial: &Polynomial) -> (r: Result<G2Point, KzgError>)
        requires
            polynomial.wf(),
        ensures
            self.s_g2.len() < polynomial.coeff.len() ==> r == Err::<G2Point, KzgError>(
                KzgError::SetupTooSmall,
            ),
            self.s_g2.len() >= polynomial.coeff.len() ==> r.is_ok() && r.unwrap()@ == combination(
                polynomial@,
                g2_scalars(self.s_g2@),
            ),
    {
        let n = polynomial.coeff.len();
        if self.s_g2.len() < n {
            return Err(KzgError::SetupTooSmall);
        }
        let ghost term = combination_term(polynomial@, g2_scalars(self.s_g2@));
        let mut acc = G2Point::generator().mul(&FieldElement::zero());
        proof {
            assert(1 * 0 == 0);
            lemma_reduce(0);
        }
        let mut i: usize = 0;
        while i < n
            invariant
                i <= n,
                canonical(acc@),
                n == polynomial.coeff.len(),
                n <= self.s_g2.len(),
                polynomial.wf(),
                term == combination_term(polynomial@, g2_scalars(self.s_g2@)),
                congruent(acc@, sum(term, i as int)),
            decreases n - i,
        {
            let t = self.s_g2[i].mul(&polynomial.coeff[i]);
            proof {
                assert(term(i as int) == polynomial.coeff@[i as int]@ * self.s_g2@[i as int]@);
                assert(self.s_g2@[i as int]@ * polynomial.coeff@[i as int]@ == term(i as int))
                    by (nonlinear_arith)
                    requires
                        term(i as int) == polynomial.coeff@[i as int]@ * self.s_g2@[i as int]@,
                ;
                lemma_reduce(term(i as int));
                lemma_reduced_add(acc@, sum(term, i as int), t@, term(i as int));
                lemma_reduce(acc@ + t@);
            }
            acc = acc.add(&t);
            i += 1;
        }
        proof {
            lemma_canonical_reduced(acc@, sum(term, n as int));
        }
        Ok(acc)
    }
}

/// The powers `0..=top` of `secret` in G1.
fn powers_in_g1(secret: &FieldElement, top: u32) -> (r: Vec<G1Point>)
    requires
        secret.wf(),
    ensures
        r.len() == top + 1,
        powers_of(g1_scalars(r@), secret@),
{
    let mut out: Vec<G1Point> = Vec::new();
    let mut i: u32 = 0;
    loop
        invariant_except_break
            i <= top,
            out.len() == i,
        invariant
            secret.wf(),
            powers_of(g1_scalars(out@), secret@),
        ensures
            out.len() == top + 1,
        decreases top - i,
    {
        let p = pow(*secret, i as usize);
        let point = G1Point::generator().mul(&p.evaluation);
        proof {
            assert(1 * p@ == p@);
            lemma_reduce(power::pow(secret@, i as nat));
            lemma_canonical_fixed(p@);
        }
        let ghost before = out@;
        out.push(point);
        proof {
            assert forall|k: int| 0 <= k < out@.len() implies #[trigger] g1_scalars(out@)[k]
                == power_mod(secret@, k as nat) by {
                if k < before.len() {
                    assert(g1_scalars(before)[k] == power_mod(secret@, k as nat));
                }
            }
        }
        if i == top {
            break ;
        }
        i += 1;
    }
    out
}

/// The powers `0..=top` of `secret` in G2.
fn powers_in_g2(secret: &FieldElement, top: u32) -> (r: Vec<G2Point>)
    requires
        secret.wf(),
    ensures
        r.len() == top + 1,
        powers_of(g2_scalars(r@), secret@),
{
    let mut out: Vec<G2Point> = Vec::new();
    let mut i: u32 = 0;
    loop
        invariant_except_break
            i <= top,
            out.len() == i,
        invariant
            secret.wf(),
            powers_of(g2_scalars(out@), secret@),
        ensures
            out.len() == top + 1,
        decreases top - i,
    {
        let p = pow(*secret, i as usize);
        let point = G2Point::generator().mul(&p.evaluation);
        proof {
            assert(1 * p@ == p@);
            lemma_reduce(power::pow(secret@, i as nat));
            lemma_canonical_fixed(p@);
        }
        let ghost before = out@;
        out.push(point);
        proof {
            assert forall|k: int| 0 <= k < out@.len() implies #[trigger] g2_scalars(out@)[k]
                == power_mod(secret@, k as nat) by {
                if k < before.len() {
                    assert(g2_scalars(before)[k] == power_mod(secret@, k as nat));
                }
            }
        }
        if i == top {
            break ;
        }
        i += 1;
    }
    out
}

/// The powers `0..=max_degree` of the secret in G1 and its powers
/// `0..=max_opening_count` in G2. Whoever calls this knows the secret; it is
/// the step that a ceremony among several parties would replace.
pub fn setup_from_secret(secret: &FieldElement, max_degree: u32, max_opening_count: u32) -> (r:
    TrustedSetup)
    requires
        secret.wf(),
    ensures
        r.s_g1.len() == max_degree + 1,
        r.s_g2.len() == max_opening_count + 1,
        r.holds_powers_of(secret@),
{
    let s_g1 = powers_in_g1(secret, max_degree);
    let s_g2 = powers_in_g2(secret, max_opening_count);
    TrustedSetup { s_g1, s_g2 }
}

/// Draws a secret scalar and returns its powers `0..=max_degree` in G1 and
/// `0..=max_opening_count` in G2. The secret is dropped on return.
pub fn generate_trusted_setup(max_degree: u32, max_opening_count: u32) -> (r: TrustedSetup)
    ensures
        r.s_g1.len() == max_degree + 1,
        r.s_g2.len() == max_opening_count + 1,
        r.wf(),
{
    let trusted_s = field_random();
    let r = setup_from_secret(&trusted_s, max_degree, max_opening_count);
    assert(r.holds_powers_of(trusted_s@));
    r
}

/// The setup for polynomials of the given degree, with as many powers in G2
/// as in G1.
pub fn trusted_setup(polynomial_degree: u32) -> (r: TrustedSetup)
    ensures
        r.s_g1.len() == polynomial_degree + 1,
        r.s_g2.len() == polynomial_degree + 1,
        r.wf(),
{
    generate_trusted_setup(polynomial_degree, polynomial_degree)
}

} // verus!
