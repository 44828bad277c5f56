//! The mathematical model of dense polynomials over the scalar field.
//!
//! A polynomial is the sequence of the canonical representatives of its
//! coefficients, lowest degree first. Positions beyond the end count as zero.

use crate::kzg_tools::modular::{canonical, modulus};
use crate::kzg_tools::sums::sum;
use vstd::arithmetic::power::pow;
use vstd::prelude::*;

verus! {

/// The coefficient of `X^k`.
pub open spec fn coefficient(p: Seq<int>, k: int) -> int {
    if 0 <= k < p.len() {
        p[k]
    } else {
        0
    }
}

/// Every coefficient is a canonical representative.
pub open spec fn canonical_poly(p: Seq<int>) -> bool {
    forall|k: int| 0 <= k < p.len() ==> canonical(#[trigger] p[k])
}

/// The monomials of `p` at `x`, as integers.
pub open spec fn monomial(p: Seq<int>, x: int) -> spec_fn(int) -> int {
    |i: int| coefficient(p, i) * pow(x, i as nat)
}

/// The value at `x` of the integer polynomial with the coefficients of `p`.
pub open spec fn eval_int(p: Seq<int>, x: int) -> int {
    sum(monomial(p, x), p.len() as int)
}

/// The value of `p` at `x` in the field.
pub open spec fn poly_eval(p: Seq<int>, x: int) -> int {
    eval_int(p, x) % modulus()
}

/// The sum of two polynomials, as long as the longer one.
pub open spec fn poly_add(a: Seq<int>, b: Seq<int>) -> Seq<int> {
    Seq::new(
        if a.len() >= b.len() { a.len() } else { b.len() },
        |k: int| (coefficient(a, k) + coefficient(b, k)) % modulus(),
    )
}

/// The difference of two polynomials, as long as the longer one.
pub open spec fn poly_sub(a: Seq<int>, b: Seq<int>) -> Seq<int> {
    Seq::new(
        if a.len() >= b.len() { a.len() } else { b.len() },
        |k: int| (coefficient(a, k) - coefficient(b, k)) % modulus(),
    )
}

/// The products `a[i] * b[k - i]` that make up the coefficient of `X^k` in `a * b`.
pub open spec fn cross_term(a: Seq<int>, b: Seq<int>, k: int) -> spec_fn(int) -> int {
    |i: int| coefficient(a, i) * coefficient(b, k - i)
}

/// The coefficient of `X^k` in the product of the integer polynomials.
pub open spec fn convolution(a: Seq<int>, b: Seq<int>, k: int) -> int {
    sum(cross_term(a, b, k), a.len() as int)
}

/// The number of coefficients of a product.
pub open spec fn product_len(a: Seq<int>, b: Seq<int>) -> nat {
    if a.len() + b.len() == 0 {
        0
    } else {
        (a.len() + b.len() - 1) as nat
    }
}

/// The product of two polynomials: the discrete convolution of their
/// coefficients.
pub open spec fn poly_mul(a: Seq<int>, b: Seq<int>) -> Seq<int> {
    Seq::new(product_len(a, b), |k: int| convolution(a, b, k) % modulus())
}

/// The polynomial `X - z`.
pub open spec fn linear_factor(z: int) -> Seq<int> {
    seq![(0 - z) % modulus(), 1]
}

/// No trailing zero but in the constant polynomial.
pub open spec fn trimmed(p: Seq<int>) -> bool {
    p.len() >= 1 && (p.len() == 1 || p.last() != 0)
}

/// `q` and `r` are quotient and remainder of `n` by `d`: `n = q * d + r`,
/// where `r` has fewer coefficients than `d` or is zero, and carries no
/// trailing zeros.
pub open spec fn is_division(n: Seq<int>, d: Seq<int>, q: Seq<int>, r: Seq<int>) -> bool {
    &&& 1 <= d.len() <= n.len()
    &&& q.len() == n.len() - d.len() + 1
    &&& r.len() < d.len() || r == seq![0int]
    &&& trimmed(r)
    &&& poly_add(poly_mul(q, d), r) == n
}

} // verus!
