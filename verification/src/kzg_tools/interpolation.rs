//! Lagrange interpolation: the polynomial through given points.

use crate::kzg_tools::error::KzgError;
use crate::kzg_tools::field::{FieldElement, field_sub};
use crate::kzg_tools::modular::{
    canonical, congruent, is_unit, lemma_canonical_fixed, lemma_congruent_add,
    lemma_congruent_canonical, lemma_congruent_mul, lemma_congruent_sub, lemma_reduce,
    lemma_unit_cancel, lemma_unit_congruent, lemma_zero_is_no_unit,
};
use crate::kzg_tools::poly_lemmas::{
    lemma_eval_add, lemma_eval_constant, lemma_eval_division, lemma_eval_linear_factor,
    lemma_eval_mul, lemma_eval_sub,
};
use crate::kzg_tools::poly_spec::{
    canonical_poly, coefficient, eval_int, is_division, linear_factor, poly_add, poly_eval,
    poly_mul, poly_sub,
};
use crate::kzg_tools::polynomial::{Polynomial, all_wf, values};
use crate::kzg_tools::roots::{lemma_roots_force_zero, pairwise_distinct, pairwise_units};
use vstd::prelude::*;

verus! {

/// The polynomial `p` takes the value `y[m]` at each point `z[m]`.
pub open spec fn interpolates(p: Seq<int>, z: Seq<int>, y: Seq<int>) -> bool {
    forall|m: int| 0 <= m < z.len() ==> poly_eval(p, #[trigger] z[m]) == y[m]
}

/// The polynomial `f`, brought to `len` coefficients with zeros.
pub open spec fn padded(f: Seq<int>, len: nat) -> Seq<int> {
    Seq::new(len, |j: int| coefficient(f, j))
}

/// The values of `p` at the points.
pub open spec fn evaluations(p: Seq<int>, z: Seq<int>) -> Seq<int> {
    Seq::new(z.len(), |m: int| poly_eval(p, z[m]))
}

/// The factor `(X - zj) / (zi - zj)` of a Lagrange basis polynomial is one
/// at `zi` and zero at `zj`.
proof fn lemma_basis_factor(zi: int, zj: int, c: int, q: Seq<int>)
    requires
        is_division(linear_factor(zj), seq![c], q, seq![0int]),
        congruent(c, zi - zj),
        is_unit(c),
    ensures
        congruent(eval_int(q, zi), 1),
        congruent(eval_int(q, zj), 0),
{
    lemma_eval_constant(c, zi);
    lemma_eval_constant(c, zj);
    lemma_eval_constant(0, zi);
    lemma_eval_constant(0, zj);
    // at zj: q(zj) * c == zj - zj
    lemma_eval_division(linear_factor(zj), seq![c], q, seq![0int], zj);
    lemma_eval_linear_factor(zj, zj);
    assert(c * eval_int(q, zj) == eval_int(q, zj) * c) by (nonlinear_arith);
    lemma_unit_cancel(c, eval_int(q, zj));
    // at zi: q(zi) * c == zi - zj == c
    lemma_eval_division(linear_factor(zj), seq![c], q, seq![0int], zi);
    lemma_eval_linear_factor(zj, zi);
    let v = eval_int(q, zi);
    lemma_congruent_sub(v * c, c, c, c);
    assert(c * (v - 1) == v * c - c) by (nonlinear_arith);
    lemma_unit_cancel(c, v - 1);
    lemma_congruent_add(v - 1, 0, 1, 1);
}

/// The value of a product, from values of the factors.
proof fn lemma_product_value(a: Seq<int>, b: Seq<int>, x: int, va: int, vb: int)
    requires
        congruent(eval_int(a, x), va),
        congruent(eval_int(b, x), vb),
        canonical(va * vb),
    ensures
        poly_eval(poly_mul(a, b), x) == va * vb,
{
    lemma_eval_mul(a, b, x);
    lemma_congruent_mul(eval_int(a, x), va, eval_int(b, x), vb);
    lemma_canonical_fixed(va * vb);
}

/// The value of a sum, from values of the summands.
proof fn lemma_sum_value(a: Seq<int>, b: Seq<int>, x: int, va: int, vb: int)
    requires
        congruent(eval_int(a, x), va),
        congruent(eval_int(b, x), vb),
        canonical(va + vb),
    ensures
        poly_eval(poly_add(a, b), x) == va + vb,
{
    lemma_eval_add(a, b, x);
    lemma_congruent_add(eval_int(a, x), va, eval_int(b, x), vb);
    lemma_canonical_fixed(va + vb);
}

/// Interpolation is exact: a polynomial `g` with as many coefficients as
/// there are points, which takes at each point the value of a polynomial `f`
/// with no more coefficients, is `f` itself, brought to that length with
/// zeros. The points have differences that are units, as `lagrange`
/// establishes of the points it accepts.
pub proof fn lemma_interpolation_exact(f: Seq<int>, z: Seq<int>, g: Seq<int>)
    requires
        canonical_poly(f),
        canonical_poly(g),
        f.len() <= z.len(),
        g.len() == z.len(),
        pairwise_units(z),
        interpolates(g, z, evaluations(f, z)),
    ensures
        g == padded(f, z.len()),
{
    let h = poly_sub(g, f);
    assert forall|m: int| 0 <= m < z.len() implies congruent(eval_int(h, #[trigger] z[m]), 0) by {
        let x = z[m];
        lemma_eval_sub(g, f, x);
        assert(poly_eval(g, x) == evaluations(f, z)[m]);
        lemma_congruent_sub(eval_int(g, x), eval_int(f, x), eval_int(f, x), eval_int(f, x));
    }
    lemma_roots_force_zero(h, z);
    assert forall|j: int| 0 <= j < g.len() implies #[trigger] g[j] == coefficient(f, j) by {
        assert(congruent(h[j], 0));
        lemma_reduce(g[j] - coefficient(f, j));
        lemma_congruent_add(g[j] - coefficient(f, j), 0, coefficient(f, j), coefficient(f, j));
        lemma_congruent_canonical(g[j], coefficient(f, j));
    }
    assert(g =~= padded(f, z.len()));
}

impl Polynomial {
    /// The polynomial with as many coefficients as there are points that
    /// takes the value `y_points[m]` at each `z_points[m]`. It is the sum
    /// over `i` of `y_i` times the product over `j != i` of
    /// `(X - z_j) / (z_i - z_j)`. Fails where two points coincide. Where the
    /// values are those of a polynomial with no more coefficients than there
    /// are points, that polynomial comes back.
    pub fn lagrange(&self, z_points: Vec<FieldElement>, y_points: Vec<FieldElement>) -> (r: Result<
        Polynomial,
        KzgError,
    >)
        requires
            all_wf(z_points@),
            all_wf(y_points@),
            z_points.len() == y_points.len(),
            z_points.len() < usize::MAX,
        ensures
            !pairwise_distinct(values(z_points@)) ==> r == Err::<Polynomial, KzgError>(
                KzgError::InterpolationDegeneracy,
            ),
            pairwise_distinct(values(z_points@)) ==> r.is_ok(),
            r matches Ok(poly) ==> {
                &&& poly.wf()
                &&& poly@.len() == z_points.len()
                &&& interpolates(poly@, values(z_points@), values(y_points@))
                &&& pairwise_units(values(z_points@))
                &&& forall|f: Seq<int>|
                    canonical_poly(f) && f.len() <= z_points.len() && values(y_points@)
                        == #[trigger] evaluations(f, values(z_points@)) ==> poly@ == padded(
                        f,
                        z_points.len() as nat,
                    )
            },
    {
        let k = z_points.len();
        let ghost z = values(z_points@);
        let ghost y = values(y_points@);
        let mut acc = Polynomial::new(Vec::new());
        let mut i: usize = 0;
        proof {
            assert forall|m: int| 0 <= m < k implies poly_eval(acc@, #[trigger] z[m]) == 0 by {
                lemma_reduce(0);
            }
        }
        while i < k
            invariant
                i <= k,
                k == z_points.len(),
                k == y_points.len(),
                k < usize::MAX,
                z == values(z_points@),
                y == values(y_points@),
                all_wf(z_points@),
                all_wf(y_points@),
                acc.wf(),
                acc@.len() == (if i == 0 { 0int } else { k as int }),
                forall|m: int|
                    0 <= m < k ==> poly_eval(acc@, #[trigger] z[m]) == (if m < i {
                        y[m]
                    } else {
                        0
                    }),
                forall|a: int, b: int|
                    #![trigger z[a], z[b]]
                    0 <= a < i && 0 <= b < k && a != b ==> is_unit(z[a] - z[b]),
            decreases k - i,
        {
            let mut term_coeff: Vec<FieldElement> = Vec::new();
            term_coeff.push(y_points[i]);
            let mut term = Polynomial::new(term_coeff);
            proof {
                assert(term@ =~= seq![y[i as int]]);
                lemma_eval_constant(y[i as int], z[i as int]);
                lemma_canonical_fixed(y[i as int]);
            }
            let mut j: usize = 0;
            while j < k
                invariant
                    j <= k,
                    i < k,
                    k == z_points.len(),
                    k == y_points.len(),
                    k < usize::MAX,
                    z == values(z_points@),
                    y == values(y_points@),
                    all_wf(z_points@),
                    all_wf(y_points@),
                    term.wf(),
                    term@.len() == 1 + j - (if j > i { 1int } else { 0int }),
                    poly_eval(term@, z[i as int]) == y[i as int],
                    forall|m: int|
                        0 <= m < j && m != i ==> poly_eval(term@, #[trigger] z[m]) == 0 && is_unit(
                            z[i as int] - z[m],
                        ),
                decreases k - j,
            {
                if j != i {
                    let mut dividend_coeff: Vec<FieldElement> = Vec::new();
                    dividend_coeff.push(field_sub(&FieldElement::zero(), &z_points[j]));
                    dividend_coeff.push(FieldElement::one());
                    let mut dividend = Polynomial::new(dividend_coeff);
                    let mut divider: Vec<FieldElement> = Vec::new();
                    divider.push(field_sub(&z_points[i], &z_points[j]));
                    let ghost zi = z[i as int];
                    let ghost zj = z[j as int];
                    let ghost c = divider@[0]@;
                    proof {
                        assert(dividend@ =~= linear_factor(zj));
                        assert(values(divider@) =~= seq![c]);
                        assert(divider@.last() == divider@[0]);
                        lemma_reduce(zi - zj);
                    }
                    match dividend.div_poly(divider) {
                        Err(_) => {
                            proof {
                                // the difference is zero: the two points coincide
                                lemma_congruent_add(zi - zj, 0, zj, zj);
                                lemma_congruent_canonical(zi, zj);
                                if i < j {
                                    assert(z[i as int] == z[j as int]);
                                } else {
                                    assert(z[j as int] == z[i as int]);
                                }
                            }
                            return Err(KzgError::InterpolationDegeneracy);
                        },
                        Ok((q, _)) => {
                            let ghost before = term@;
                            proof {
                                lemma_unit_congruent(c, zi - zj);
                                lemma_basis_factor(zi, zj, c, q@);
                                assert(term.coeff.len() + q.coeff.len() <= usize::MAX);
                            }
                            term = term.mul_poly(q.coeff);
                            proof {
                                let yi = y[i as int];
                                lemma_reduce(eval_int(before, zi));
                                assert(yi * 1 == yi);
                                lemma_product_value(before, q@, zi, yi, 1);
                                lemma_reduce(0);
                                assert forall|m: int| 0 <= m < j + 1 && m != i implies poly_eval(
                                    term@,
                                    #[trigger] z[m],
                                ) == 0 && is_unit(z[i as int] - z[m]) by {
                                    if m < j {
                                        lemma_reduce(eval_int(before, z[m]));
                                        assert(0 * eval_int(q@, z[m]) == 0);
                                        lemma_product_value(
                                            before,
                                            q@,
                                            z[m],
                                            0,
                                            eval_int(q@, z[m]),
                                        );
                                    } else {
                                        assert(eval_int(before, zj) * 0 == 0);
                                        lemma_product_value(
                                            before,
                                            q@,
                                            zj,
                                            eval_int(before, zj),
                                            0,
                                        );
                                    }
                                }
                            }
                        },
                    }
                }
                j += 1;
            }
            let ghost before = acc@;
            acc = term.add_poly(acc.coeff);
            proof {
                lemma_reduce(0);
                assert forall|m: int| 0 <= m < k implies poly_eval(acc@, #[trigger] z[m]) == (if m
                    < i + 1 {
                    y[m]
                } else {
                    0
                }) by {
                    lemma_reduce(eval_int(term@, z[m]));
                    lemma_reduce(eval_int(before, z[m]));
                    let vt = if m == i { y[m] } else { 0 };
                    let va = if m < i { y[m] } else { 0 };
                    assert(canonical(y[m]));
                    lemma_sum_value(term@, before, z[m], vt, va);
                }
                assert forall|a: int, b: int|
                    #![trigger z[a], z[b]]
                    0 <= a < i + 1 && 0 <= b < k && a != b implies is_unit(z[a] - z[b]) by {
                    if a == i {
                        assert(is_unit(z[i as int] - z[b]));
                    }
                }
            }
            i += 1;
        }
        proof {
            assert(pairwise_units(z));
            assert(pairwise_distinct(z)) by {
                assert forall|a: int, b: int|
                    #![trigger z[a], z[b]]
                    0 <= a < b < z.len() implies z[a] != z[b] by {
                    assert(is_unit(z[a] - z[b]));
                    if z[a] == z[b] {
                        lemma_zero_is_no_unit(z[a] - z[b]);
                    }
                }
            }
        }
        proof {
            assert forall|f: Seq<int>|
                canonical_poly(f) && f.len() <= k && y == #[trigger] evaluations(f, z) implies acc@
                == padded(f, k as nat) by {
                lemma_interpolation_exact(f, z, acc@);
                assert(acc@ =~= padded(f, k as nat));
            }
        }
        Ok(acc)
    }
}

} // verus!
