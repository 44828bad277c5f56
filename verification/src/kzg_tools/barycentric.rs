//! Evaluation of a polynomial from its values on the roots of unity.
//!
//! With `y_i` the values of the polynomial at the powers `w^i` of a
//! primitive `n`-th root of unity, its value at any other point `x` is
//! `(x^n - 1) / n` times the sum of the `y_i w^i / (x - w^i)`.

use crate::kzg_tools::barycentric_lemmas::lemma_barycentric_evaluates;
use crate::kzg_tools::evaluation::Evaluation;
use crate::kzg_tools::fft::{
    fft, fft_values, is_power_of_two, is_primitive_root, lemma_fft_evaluates, lemma_fft_len,
};
use crate::kzg_tools::field::{FieldElement, field_add, field_invert, field_mul, field_sub};
use crate::kzg_tools::modular::{
    congruent, inverse, is_unit, lemma_canonical_fixed, lemma_canonical_reduced,
    lemma_congruent_add, lemma_congruent_canonical, lemma_congruent_mul, lemma_inverse_is,
    lemma_reduce, lemma_reduced_add, lemma_reduced_mul, lemma_reduced_sub, modulus, power_mod,
};
use crate::kzg_tools::poly_spec::{canonical_poly, poly_eval};
use crate::kzg_tools::polynomial::{Polynomial, pow};
use crate::kzg_tools::sums::sum;
use vstd::arithmetic::power;
use vstd::prelude::*;

verus! {

/// The least index from `i` on at which the power of `w` is `x`, or `n`
/// where there is none below `n`.
pub open spec fn domain_index(w: int, x: int, n: int, i: int) -> int
    decreases n - i,
{
    if i >= n {
        n
    } else if power_mod(w, i as nat) == x {
        i
    } else {
        domain_index(w, x, n, i + 1)
    }
}

/// The summands `y_i w^i / (x - w^i)` of the barycentric formula.
pub open spec fn barycentric_term(y: Seq<int>, w: int, x: int) -> spec_fn(int) -> int {
    |i: int| y[i] * power_mod(w, i as nat) * inverse(x - power_mod(w, i as nat))
}

/// The barycentric formula on the values `y`: the value `y_i` itself where
/// `x` is the power `w^i`, and `(x^n - 1) / n` times the sum of the
/// `y_i w^i / (x - w^i)` elsewhere.
pub open spec fn barycentric_value(y: Seq<int>, w: int, x: int) -> int {
    let n = y.len() as int;
    let hit = domain_index(w, x, n, 0);
    if hit < n {
        y[hit]
    } else {
        ((power::pow(x, n as nat) - 1) * inverse(n) * sum(barycentric_term(y, w, x), n))
            % modulus()
    }
}

/// Evaluates the polynomial at `x` from its values on the powers of `rou`,
/// which the fast Fourier transform supplies. Where `x` is one of these
/// powers the value there is returned as it is.
pub fn barycentric(polynomial: Polynomial, rou: FieldElement, x: FieldElement) -> (r: Evaluation)
    requires
        polynomial.wf(),
        rou.wf(),
        x.wf(),
        polynomial.coeff.len() >= 1,
    ensures
        r.wf(),
        r@ == barycentric_value(fft_values(polynomial@, rou@), rou@, x@),
        is_power_of_two(polynomial@.len() as int) && is_primitive_root(
            rou@,
            polynomial@.len() as int,
        ) ==> r@ == poly_eval(polynomial@, x@),
{
    let len = polynomial.coeff.len();
    let ghost p = polynomial@;
    let ghost w = rou@;
    let eval = fft(polynomial, rou);
    let ghost y = eval@;
    let ghost term = barycentric_term(y, w, x@);
    proof {
        lemma_fft_len(p, w);
    }
    let mut sum_res = FieldElement::zero();
    let mut i: usize = 0;
    while i < len
        invariant
            i <= len,
            len == eval.coeff.len(),
            eval.wf(),
            rou.wf(),
            x.wf(),
            sum_res.wf(),
            w == rou@,
            y == eval@,
            p == polynomial@,
            y == fft_values(p, w),
            term == barycentric_term(y, w, x@),
            domain_index(w, x@, len as int, 0) == domain_index(w, x@, len as int, i as int),
            congruent(sum_res@, sum(term, i as int)),
            canonical_poly(p),
            p.len() == len,
            forall|k: int| 0 <= k < i ==> is_unit(x@ - #[trigger] power_mod(w, k as nat)),
        decreases len - i,
    {
        let w_i = pow(rou, i);
        let d = field_sub(&x, &w_i.evaluation);
        match field_invert(&d) {
            None => {
                proof {
                    // x is the power at this index
                    lemma_canonical_fixed(0);
                    lemma_congruent_add(x@ - w_i@, 0, w_i@, w_i@);
                    lemma_congruent_canonical(x@, w_i@);
                    assert(domain_index(w, x@, len as int, i as int) == i);
                    if is_power_of_two(len as int) && is_primitive_root(w, len as int) {
                        lemma_fft_evaluates(p, w);
                    }
                }
                return Evaluation::new(eval.coeff[i]);
            },
            Some(inv) => {
                let y_w = field_mul(&eval.coeff[i], &w_i.evaluation);
                let t = field_mul(&y_w, &inv);
                proof {
                    lemma_reduce(x@ - w_i@);
                    lemma_congruent_mul(d@, x@ - w_i@, inv@, inv@);
                    lemma_inverse_is(x@ - w_i@, inv@);
                    lemma_canonical_fixed(0);
                    assert(x@ != w_i@);
                    lemma_reduce(y[i as int] * w_i@);
                    lemma_reduced_mul(y_w@, y[i as int] * w_i@, inv@, inv@);
                    assert(term(i as int) == y[i as int] * w_i@ * inv@);
                    lemma_reduced_add(sum_res@, sum(term, i as int), t@, term(i as int));
                }
                sum_res = field_add(&sum_res, &t);
            },
        }
        i += 1;
    }
    let x_n = field_sub(&pow(x, len).evaluation, &FieldElement::one());
    let n = FieldElement::from_u128(len as u128);
    let n_inv = match field_invert(&n) {
        Some(v) => v,
        None => {
            return Evaluation::new(FieldElement::zero());
        },
    };
    let left = field_mul(&x_n, &n_inv);
    let res = field_mul(&left, &sum_res);
    proof {
        lemma_inverse_is(len as int, n_inv@);
        let xn = power::pow(x@, len as nat);
        lemma_reduce(xn);
        lemma_reduced_sub(power_mod(x@, len as nat), xn, 1, 1);
        lemma_reduced_mul(x_n@, xn - 1, n_inv@, n_inv@);
        lemma_reduced_mul(left@, (xn - 1) * n_inv@, sum_res@, sum(term, len as int));
        lemma_canonical_reduced(res@, (xn - 1) * n_inv@ * sum(term, len as int));
        if is_power_of_two(len as int) && is_primitive_root(w, len as int) {
            lemma_barycentric_evaluates(p, w, x@);
        }
    }
    Evaluation::new(res)
}

} // verus!
