//! Roots of polynomials: a polynomial with fewer coefficients than roots is
//! zero, as long as the differences of the roots are units.

use crate::kzg_tools::modular::{
    congruent, is_unit, lemma_congruent_sub, lemma_congruent_zero_mul, lemma_unit_cancel,
};
use crate::kzg_tools::poly_lemmas::{lemma_cauchy_product, product_monomial};
use crate::kzg_tools::poly_spec::{
    coefficient, convolution, cross_term, eval_int, monomial, product_len,
};
use crate::kzg_tools::sums::{lemma_sum_add, lemma_sum_ext, lemma_sum_single, sum};
use vstd::arithmetic::power::{lemma_pow0, lemma_pow1};
use vstd::prelude::*;

verus! {

/// The difference of any two of the points has an inverse in the field.
pub open spec fn pairwise_units(z: Seq<int>) -> bool {
    forall|i: int, j: int|
        #![trigger z[i], z[j]]
        0 <= i < z.len() && 0 <= j < z.len() && i != j ==> is_unit(z[i] - z[j])
}

/// No two of the points are the same.
pub open spec fn pairwise_distinct(z: Seq<int>) -> bool {
    forall|i: int, j: int| #![trigger z[i], z[j]] 0 <= i < j < z.len() ==> z[i] != z[j]
}

/// The value at `a` of the polynomial `r[j] + r[j + 1] X + ...`, by Horner's
/// rule.
pub open spec fn horner_tail(r: Seq<int>, a: int, j: int) -> int
    decreases r.len() - j,
{
    if j < 0 || j >= r.len() {
        0
    } else {
        r[j] + a * horner_tail(r, a, j + 1)
    }
}

/// The quotient of the integer polynomial `r` by `X - a`.
pub open spec fn deflate(r: Seq<int>, a: int) -> Seq<int> {
    Seq::new((r.len() - 1) as nat, |j: int| horner_tail(r, a, j + 1))
}

/// The integer polynomial `X - a`.
pub open spec fn monic_linear(a: int) -> Seq<int> {
    seq![-a, 1]
}

proof fn lemma_eval_monic_linear(a: int, x: int)
    ensures
        eval_int(monic_linear(a), x) == x - a,
{
    let d = monic_linear(a);
    let f = monomial(d, x);
    lemma_pow0(x);
    lemma_pow1(x);
    assert(sum(f, 2) == sum(f, 1) + f(1));
    assert(sum(f, 1) == sum(f, 0) + f(0));
    assert(d[0] == -a);
    assert(d[1] == 1);
    assert((-a) * 1 == -a);
    assert(1 * x == x);
}

/// The coefficients of `(X - a) * h`.
proof fn lemma_convolution_monic_linear(a: int, h: Seq<int>, k: int)
    ensures
        convolution(monic_linear(a), h, k) == coefficient(h, k - 1) - a * coefficient(h, k),
{
    let d = monic_linear(a);
    let f = cross_term(d, h, k);
    assert(sum(f, 2) == sum(f, 1) + f(1));
    assert(sum(f, 1) == sum(f, 0) + f(0));
    assert(d[0] == -a);
    assert(d[1] == 1);
    assert(1 * coefficient(h, k - 1) == coefficient(h, k - 1));
    assert((-a) * coefficient(h, k) == -(a * coefficient(h, k))) by (nonlinear_arith);
}

/// The remainder theorem over the integers: `r = (X - a) * h + r(a)`.
proof fn lemma_deflate(r: Seq<int>, a: int, x: int)
    requires
        r.len() >= 1,
    ensures
        eval_int(r, x) == (x - a) * eval_int(deflate(r, a), x) + horner_tail(r, a, 0),
{
    let h = deflate(r, a);
    let d = monic_linear(a);
    let c = horner_tail(r, a, 0);
    let len = r.len() as int;
    let constant = |k: int| if k == 0 { c } else { 0 };
    let split = |k: int| product_monomial(d, h, x)(k) + constant(k);
    assert forall|k: int| 0 <= k < len implies #[trigger] monomial(r, x)(k) == split(k) by {
        lemma_convolution_monic_linear(a, h, k);
        assert(horner_tail(r, a, k) == r[k] + a * horner_tail(r, a, k + 1));
        assert(coefficient(h, k) == horner_tail(r, a, k + 1));
        if k == 0 {
            lemma_pow0(x);
            assert(r[0] == c - a * horner_tail(r, a, 1));
            assert((c - a * horner_tail(r, a, 1)) * 1 == (0 - a * horner_tail(r, a, 1)) * 1 + c);
        } else {
            assert(coefficient(h, k - 1) == horner_tail(r, a, k));
        }
    }
    lemma_sum_ext(monomial(r, x), split, len);
    lemma_sum_add(product_monomial(d, h, x), constant, len);
    lemma_sum_single(constant, 0, len);
    assert(product_len(d, h) == len);
    lemma_cauchy_product(d, h, x);
    lemma_eval_monic_linear(a, x);
}

/// A polynomial with no more coefficients than it has roots, whose
/// differences are units, has coefficients congruent to zero throughout.
pub proof fn lemma_roots_force_zero(r: Seq<int>, z: Seq<int>)
    requires
        r.len() <= z.len(),
        pairwise_units(z),
        forall|m: int| 0 <= m < z.len() ==> congruent(eval_int(r, #[trigger] z[m]), 0),
    ensures
        forall|k: int| 0 <= k < r.len() ==> congruent(#[trigger] r[k], 0),
    decreases z.len(),
{
    if r.len() > 0 {
        let last = z.len() - 1;
        let a = z[last];
        let h = deflate(r, a);
        let rest = z.drop_last();
        let c = horner_tail(r, a, 0);
        lemma_deflate(r, a, a);
        assert((a - a) * eval_int(h, a) == 0);
        assert(congruent(c, 0));
        assert forall|m: int| 0 <= m < rest.len() implies congruent(
            eval_int(h, #[trigger] rest[m]),
            0,
        ) by {
            let x = z[m];
            lemma_deflate(r, a, x);
            // (x - a) * h(x) == r(x) - c, which is congruent to zero
            lemma_congruent_sub(eval_int(r, x), 0, c, 0);
            assert(is_unit(z[m] - z[last]));
            lemma_unit_cancel(x - a, eval_int(h, x));
        }
        assert(pairwise_units(rest)) by {
            assert forall|i: int, j: int|
                #![trigger rest[i], rest[j]]
                0 <= i < rest.len() && 0 <= j < rest.len() && i != j implies is_unit(
                rest[i] - rest[j],
            ) by {
                assert(is_unit(z[i] - z[j]));
            }
        }
        lemma_roots_force_zero(h, rest);
        assert forall|k: int| 0 <= k < r.len() implies congruent(#[trigger] r[k], 0) by {
            assert(horner_tail(r, a, k) == r[k] + a * horner_tail(r, a, k + 1));
            let up = horner_tail(r, a, k + 1);
            let here = horner_tail(r, a, k);
            assert(congruent(up, 0)) by {
                if k + 1 < r.len() {
                    assert(h[k] == up);
                }
            }
            assert(congruent(here, 0)) by {
                if k > 0 {
                    assert(h[k - 1] == here);
                }
            }
            lemma_congruent_zero_mul(up, a);
            lemma_congruent_sub(here, 0, a * up, 0);
        }
    }
}

} // verus!
