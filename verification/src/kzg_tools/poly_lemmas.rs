//! Evaluation is a ring homomorphism: what the arithmetic of polynomials
//! means for their values.

use crate::kzg_tools::modular::{
    canonical, congruent, is_unit, lemma_congruent_add, lemma_congruent_canonical,
    lemma_congruent_mul, lemma_congruent_sub, lemma_congruent_zero_mul, lemma_reduce,
    lemma_unit_cancel, modulus,
};
use crate::kzg_tools::poly_spec::{
    canonical_poly, coefficient, convolution, cross_term, eval_int, is_division, linear_factor,
    monomial, poly_add, poly_mul, poly_sub, product_len,
};
use crate::kzg_tools::sums::{
    lemma_sum_add, lemma_sum_congruent, lemma_sum_ext, lemma_sum_scale, lemma_sum_shift,
    lemma_sum_single, lemma_sum_sub, lemma_sum_truncate, lemma_sum_zero, sum,
};
use vstd::arithmetic::power::{lemma_pow0, lemma_pow1, lemma_pow_adds, pow};
use vstd::prelude::*;

verus! {

/// Monomials may be summed beyond the end of the polynomial.
pub proof fn lemma_eval_int_extend(p: Seq<int>, x: int, n: int)
    requires
        p.len() <= n,
    ensures
        sum(monomial(p, x), n) == eval_int(p, x),
{
    assert forall|i: int| p.len() <= i < n implies #[trigger] monomial(p, x)(i) == 0 by {
        assert(0 * pow(x, i as nat) == 0);
    }
    lemma_sum_truncate(monomial(p, x), p.len() as int, n);
}

/// The value of a sum is the sum of the values.
pub proof fn lemma_eval_add(a: Seq<int>, b: Seq<int>, x: int)
    ensures
        congruent(eval_int(poly_add(a, b), x), eval_int(a, x) + eval_int(b, x)),
{
    let c = poly_add(a, b);
    let n = c.len() as int;
    let both = |i: int| monomial(a, x)(i) + monomial(b, x)(i);
    assert forall|i: int| 0 <= i < n implies congruent(#[trigger] monomial(c, x)(i), both(i)) by {
        lemma_reduce(coefficient(a, i) + coefficient(b, i));
        lemma_congruent_mul(
            c[i],
            coefficient(a, i) + coefficient(b, i),
            pow(x, i as nat),
            pow(x, i as nat),
        );
        assert((coefficient(a, i) + coefficient(b, i)) * pow(x, i as nat) == coefficient(a, i)
            * pow(x, i as nat) + coefficient(b, i) * pow(x, i as nat)) by (nonlinear_arith);
    }
    lemma_sum_congruent(monomial(c, x), both, n);
    lemma_sum_add(monomial(a, x), monomial(b, x), n);
    lemma_eval_int_extend(a, x, n);
    lemma_eval_int_extend(b, x, n);
}

/// The value of a difference is the difference of the values.
pub proof fn lemma_eval_sub(a: Seq<int>, b: Seq<int>, x: int)
    ensures
        congruent(eval_int(poly_sub(a, b), x), eval_int(a, x) - eval_int(b, x)),
{
    let c = poly_sub(a, b);
    let n = c.len() as int;
    let both = |i: int| monomial(a, x)(i) - monomial(b, x)(i);
    assert forall|i: int| 0 <= i < n implies congruent(#[trigger] monomial(c, x)(i), both(i)) by {
        lemma_reduce(coefficient(a, i) - coefficient(b, i));
        lemma_congruent_mul(
            c[i],
            coefficient(a, i) - coefficient(b, i),
            pow(x, i as nat),
            pow(x, i as nat),
        );
        assert((coefficient(a, i) - coefficient(b, i)) * pow(x, i as nat) == coefficient(a, i)
            * pow(x, i as nat) - coefficient(b, i) * pow(x, i as nat)) by (nonlinear_arith);
    }
    lemma_sum_congruent(monomial(c, x), both, n);
    lemma_sum_sub(monomial(a, x), monomial(b, x), n);
    lemma_eval_int_extend(a, x, n);
    lemma_eval_int_extend(b, x, n);
}

/// The monomials of `b`, moved up by `m` places, sum up to `x^m` times the
/// value of `b`.
proof fn lemma_shifted_value(b: Seq<int>, x: int, m: int, len: int)
    requires
        0 <= m,
        m + b.len() <= len,
    ensures
        sum(|k: int| coefficient(b, k - m) * pow(x, k as nat), len) == pow(x, m as nat) * eval_int(
            b,
            x,
        ),
{
    let shifted = |k: int| coefficient(b, k - m) * pow(x, k as nat);
    let scaled = |j: int| pow(x, m as nat) * monomial(b, x)(j);
    assert forall|k: int| m + b.len() <= k < len implies #[trigger] shifted(k) == 0 by {
        assert(0 * pow(x, k as nat) == 0);
    }
    lemma_sum_truncate(shifted, m + b.len(), len);
    assert forall|k: int| 0 <= k < m implies #[trigger] shifted(k) == 0 by {
        assert(0 * pow(x, k as nat) == 0);
    }
    assert forall|j: int| 0 <= j < b.len() implies shifted(j + m) == #[trigger] scaled(j) by {
        lemma_pow_adds(x, m as nat, j as nat);
        assert(b[j] * (pow(x, m as nat) * pow(x, j as nat)) == pow(x, m as nat) * (b[j] * pow(
            x,
            j as nat,
        ))) by (nonlinear_arith);
        assert((m + j) as nat == m as nat + j as nat);
    }
    lemma_sum_shift(scaled, shifted, m, b.len() as int);
    lemma_sum_scale(pow(x, m as nat), monomial(b, x), b.len() as int);
}

/// The Cauchy product, for the first `m` coefficients of `a`.
proof fn lemma_cauchy_prefix(a: Seq<int>, b: Seq<int>, x: int, m: int, len: int)
    requires
        0 <= m <= a.len(),
        a.len() + b.len() - 1 <= len,
    ensures
        sum(|k: int| sum(cross_term(a, b, k), m) * pow(x, k as nat), len) == sum(
            monomial(a, x),
            m,
        ) * eval_int(b, x),
    decreases m,
{
    let partial = |k: int| sum(cross_term(a, b, k), m) * pow(x, k as nat);
    if m == 0 {
        assert forall|k: int| 0 <= k < len implies #[trigger] partial(k) == 0 by {
            assert(0 * pow(x, k as nat) == 0);
        }
        lemma_sum_zero(partial, len);
        assert(0 * eval_int(b, x) == 0);
    } else {
        let am = a[m - 1];
        let before = |k: int| sum(cross_term(a, b, k), m - 1) * pow(x, k as nat);
        let shifted = |k: int| coefficient(b, k - (m - 1)) * pow(x, k as nat);
        let added = |k: int| am * shifted(k);
        let split = |k: int| before(k) + added(k);
        lemma_cauchy_prefix(a, b, x, m - 1, len);
        assert forall|k: int| 0 <= k < len implies #[trigger] partial(k) == split(k) by {
            let s = sum(cross_term(a, b, k), m - 1);
            let c = coefficient(b, k - (m - 1));
            let p = pow(x, k as nat);
            assert(cross_term(a, b, k)(m - 1) == am * c);
            assert((s + am * c) * p == s * p + am * (c * p)) by (nonlinear_arith);
        }
        lemma_sum_ext(partial, split, len);
        lemma_sum_add(before, added, len);
        lemma_sum_scale(am, shifted, len);
        lemma_shifted_value(b, x, m - 1, len);
        let ea = sum(monomial(a, x), m - 1);
        let eb = eval_int(b, x);
        let pm = pow(x, (m - 1) as nat);
        assert(monomial(a, x)(m - 1) == am * pm);
        assert(ea * eb + am * (pm * eb) == (ea + am * pm) * eb) by (nonlinear_arith);
    }
}

/// The monomials of the product of two integer polynomials.
pub open spec fn product_monomial(a: Seq<int>, b: Seq<int>, x: int) -> spec_fn(int) -> int {
    |k: int| convolution(a, b, k) * pow(x, k as nat)
}

/// The Cauchy product: the convolution of the coefficients is the product
/// of the values, over the integers.
pub proof fn lemma_cauchy_product(a: Seq<int>, b: Seq<int>, x: int)
    ensures
        sum(product_monomial(a, b, x), product_len(a, b) as int) == eval_int(a, x) * eval_int(
            b,
            x,
        ),
{
    let len = product_len(a, b) as int;
    let partial = |k: int| sum(cross_term(a, b, k), a.len() as int) * pow(x, k as nat);
    lemma_cauchy_prefix(a, b, x, a.len() as int, len);
    assert forall|k: int| 0 <= k < len implies #[trigger] product_monomial(a, b, x)(k) == partial(
        k,
    ) by {}
    lemma_sum_ext(product_monomial(a, b, x), partial, len);
}

/// The value of a product is the product of the values.
pub proof fn lemma_eval_mul(a: Seq<int>, b: Seq<int>, x: int)
    ensures
        congruent(eval_int(poly_mul(a, b), x), eval_int(a, x) * eval_int(b, x)),
{
    let c = poly_mul(a, b);
    let len = c.len() as int;
    let exact = product_monomial(a, b, x);
    assert forall|k: int| 0 <= k < len implies congruent(
        #[trigger] monomial(c, x)(k),
        exact(k),
    ) by {
        lemma_reduce(convolution(a, b, k));
        lemma_congruent_mul(c[k], convolution(a, b, k), pow(x, k as nat), pow(x, k as nat));
    }
    lemma_sum_congruent(monomial(c, x), exact, len);
    lemma_cauchy_product(a, b, x);
}

/// The value of the polynomial `y`.
pub proof fn lemma_eval_constant(y: int, x: int)
    ensures
        eval_int(seq![y], x) == y,
{
    let f = monomial(seq![y], x);
    lemma_pow0(x);
    assert(sum(f, 1) == sum(f, 0) + f(0));
    assert(seq![y][0] == y);
    assert(y * 1 == y);
}

/// The value of `X - z` at `x`.
pub proof fn lemma_eval_linear_factor(z: int, x: int)
    ensures
        congruent(eval_int(linear_factor(z), x), x - z),
{
    let d = linear_factor(z);
    let f = monomial(d, x);
    lemma_pow0(x);
    lemma_pow1(x);
    assert(sum(f, 2) == sum(f, 1) + f(1));
    assert(sum(f, 1) == sum(f, 0) + f(0));
    assert(d[0] == (0 - z) % modulus());
    assert(d[1] == 1);
    assert(d[0] * 1 == d[0]);
    assert(1 * x == x);
    lemma_reduce(0 - z);
    lemma_congruent_add(d[0], 0 - z, x, x);
}

/// The value of the dividend is the value of the quotient times the value
/// of the divisor, plus the value of the remainder.
pub proof fn lemma_eval_division(n: Seq<int>, d: Seq<int>, q: Seq<int>, r: Seq<int>, x: int)
    requires
        is_division(n, d, q, r),
    ensures
        congruent(eval_int(n, x), eval_int(q, x) * eval_int(d, x) + eval_int(r, x)),
{
    lemma_eval_add(poly_mul(q, d), r, x);
    lemma_eval_mul(q, d, x);
    lemma_congruent_add(
        eval_int(poly_mul(q, d), x),
        eval_int(q, x) * eval_int(d, x),
        eval_int(r, x),
        eval_int(r, x),
    );
}

/// The coefficients of `q * d + r` as integers, up to congruence.
proof fn lemma_division_coefficient(n: Seq<int>, d: Seq<int>, q: Seq<int>, r: Seq<int>, k: int)
    requires
        is_division(n, d, q, r),
        0 <= k < n.len(),
    ensures
        congruent(n[k], convolution(q, d, k) + coefficient(r, k)),
{
    assert(poly_add(poly_mul(q, d), r)[k] == n[k]);
    lemma_reduce(convolution(q, d, k));
    lemma_congruent_add(
        convolution(q, d, k) % modulus(),
        convolution(q, d, k),
        coefficient(r, k),
        coefficient(r, k),
    );
    lemma_reduce(coefficient(poly_mul(q, d), k) + coefficient(r, k));
}

/// Where the products of `dq` with `d` vanish from the degree of `d` on and
/// the leading coefficient of `d` is a unit, `dq` vanishes from `i` on.
proof fn lemma_quotient_difference_vanishes(dq: Seq<int>, d: Seq<int>, i: int)
    requires
        d.len() >= 1,
        is_unit(d.last()),
        0 <= i <= dq.len(),
        forall|k: int|
            d.len() - 1 <= k < dq.len() + d.len() - 1 ==> congruent(
                #[trigger] convolution(dq, d, k),
                0,
            ),
    ensures
        forall|j: int| i <= j < dq.len() ==> congruent(#[trigger] dq[j], 0),
    decreases dq.len() - i,
{
    if i < dq.len() {
        lemma_quotient_difference_vanishes(dq, d, i + 1);
        let k = i + d.len() - 1;
        let lead = d.last();
        let terms = cross_term(dq, d, k);
        let only = |j: int| if j == i { dq[i] * lead } else { 0 };
        assert forall|j: int| 0 <= j < dq.len() implies congruent(#[trigger] terms(j), only(j)) by {
            if j > i {
                lemma_congruent_zero_mul(dq[j], coefficient(d, k - j));
            } else if j < i {
                assert(coefficient(d, k - j) == 0);
                assert(dq[j] * 0 == 0);
            }
        }
        lemma_sum_congruent(terms, only, dq.len() as int);
        lemma_sum_single(only, i, dq.len() as int);
        assert(congruent(convolution(dq, d, k), 0));
        assert(lead * dq[i] == dq[i] * lead) by (nonlinear_arith);
        lemma_unit_cancel(lead, dq[i]);
    }
}

/// Division is unique: where the leading coefficient of the divisor is a
/// unit, there is one quotient and one remainder with canonical
/// coefficients.
pub proof fn lemma_division_unique(
    n: Seq<int>,
    d: Seq<int>,
    q1: Seq<int>,
    r1: Seq<int>,
    q2: Seq<int>,
    r2: Seq<int>,
)
    requires
        is_division(n, d, q1, r1),
        is_division(n, d, q2, r2),
        canonical_poly(q1),
        canonical_poly(q2),
        canonical_poly(r1),
        canonical_poly(r2),
        is_unit(d.last()),
    ensures
        q1 == q2,
        r1 == r2,
{
    let m = q1.len() as int;
    let dq = Seq::new(q1.len(), |i: int| q1[i] - q2[i]);
    assert forall|k: int| 0 <= k < n.len() implies congruent(
        #[trigger] convolution(dq, d, k),
        coefficient(r2, k) - coefficient(r1, k),
    ) by {
        lemma_division_coefficient(n, d, q1, r1, k);
        lemma_division_coefficient(n, d, q2, r2, k);
        let c1 = cross_term(q1, d, k);
        let c2 = cross_term(q2, d, k);
        let both = |i: int| c1(i) - c2(i);
        assert forall|i: int| 0 <= i < m implies #[trigger] cross_term(dq, d, k)(i) == both(i) by {
            assert((q1[i] - q2[i]) * coefficient(d, k - i) == q1[i] * coefficient(d, k - i) - q2[i]
                * coefficient(d, k - i)) by (nonlinear_arith);
        }
        lemma_sum_ext(cross_term(dq, d, k), both, m);
        lemma_sum_sub(c1, c2, m);
        // conv1 + r1 == n == conv2 + r2
        lemma_congruent_sub(
            convolution(q1, d, k) + coefficient(r1, k),
            convolution(q2, d, k) + coefficient(r2, k),
            convolution(q2, d, k) + coefficient(r1, k),
            convolution(q2, d, k) + coefficient(r1, k),
        );
    }
    assert forall|k: int| d.len() - 1 <= k < dq.len() + d.len() - 1 implies congruent(
        #[trigger] convolution(dq, d, k),
        0,
    ) by {
        assert(coefficient(r1, k) == 0);
        assert(coefficient(r2, k) == 0);
    }
    lemma_quotient_difference_vanishes(dq, d, 0);
    assert forall|i: int| 0 <= i < m implies q1[i] == q2[i] by {
        assert(congruent(dq[i], 0));
        lemma_congruent_add(q1[i] - q2[i], 0, q2[i], q2[i]);
        lemma_congruent_canonical(q1[i], q2[i]);
    }
    assert(q1 =~= q2);
    assert forall|k: int| 0 <= k < n.len() implies coefficient(r1, k) == coefficient(r2, k) by {
        lemma_division_coefficient(n, d, q1, r1, k);
        lemma_division_coefficient(n, d, q2, r2, k);
        lemma_congruent_sub(
            convolution(q1, d, k) + coefficient(r1, k),
            convolution(q1, d, k) + coefficient(r2, k),
            convolution(q1, d, k),
            convolution(q1, d, k),
        );
        assert(canonical(0));
        lemma_congruent_canonical(coefficient(r1, k), coefficient(r2, k));
    }
    if r1.len() < r2.len() {
        assert(coefficient(r1, r2.len() - 1) == coefficient(r2, r2.len() - 1));
    } else if r2.len() < r1.len() {
        assert(coefficient(r1, r1.len() - 1) == coefficient(r2, r1.len() - 1));
    }
    assert forall|k: int| 0 <= k < r1.len() implies r1[k] == r2[k] by {
        assert(coefficient(r1, k) == coefficient(r2, k));
    }
    assert(r1 =~= r2);
}

} // verus!
