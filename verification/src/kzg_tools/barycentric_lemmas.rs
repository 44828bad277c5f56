//! Why the barycentric formula gives the value of the polynomial.

use crate::kzg_tools::barycentric::{barycentric_term, barycentric_value, domain_index};
use crate::kzg_tools::fft::{fft_values, is_power_of_two, is_primitive_root, lemma_fft_evaluates};
use crate::kzg_tools::modular::{
    congruent, inverse, is_inverse, is_unit, lemma_congruent_mul, lemma_congruent_pow,
    lemma_congruent_sub, lemma_reduce, lemma_zero_is_no_unit, modulus, power_mod,
};
use crate::kzg_tools::poly_spec::{canonical_poly, coefficient, eval_int, monomial, poly_eval};
use crate::kzg_tools::sums::{
    column_sums, lemma_sum_congruent, lemma_sum_ext, lemma_sum_scale, lemma_sum_single,
    lemma_sum_swap, row_sums, sum,
};
use crate::kzg_tools::unity::{lemma_full_turn, lemma_orthogonality, root_power};
use vstd::arithmetic::div_mod::{lemma_fundamental_div_mod_converse, lemma_small_mod};
use vstd::arithmetic::power::{
    lemma1_pow, lemma_pow0, lemma_pow1, lemma_pow_adds, lemma_pow_multiplies, pow,
};
use vstd::prelude::*;

verus! {

/// The products `a^j b^(n - j)`.
pub open spec fn geometric_term(a: int, b: int, n: int) -> spec_fn(int) -> int {
    |j: int| pow(a, j as nat) * pow(b, (n - j) as nat)
}

/// The geometric sum: `(a - b)` times the sum of the `a^j b^(n - j)` for
/// `j < n` is `b (a^n - b^n)`.
pub proof fn lemma_geometric(a: int, b: int, n: nat)
    ensures
        (a - b) * sum(geometric_term(a, b, n as int), n as int) == b * (pow(a, n) - pow(b, n)),
    decreases n,
{
    if n == 0 {
        lemma_pow0(a);
        lemma_pow0(b);
        assert((a - b) * 0 == 0);
        assert(b * (1 - 1) == 0);
    } else {
        let k = (n - 1) as nat;
        let now = geometric_term(a, b, n as int);
        let before = geometric_term(a, b, k as int);
        let scaled = |j: int| b * before(j);
        lemma_geometric(a, b, k);
        assert forall|j: int| 0 <= j < k implies #[trigger] now(j) == scaled(j) by {
            lemma_pow_adds(b, 1, (k - j) as nat);
            lemma_pow1(b);
            assert((n - j) as nat == 1 + (k - j) as nat);
            assert(pow(a, j as nat) * (b * pow(b, (k - j) as nat)) == b * (pow(a, j as nat) * pow(
                b,
                (k - j) as nat,
            ))) by (nonlinear_arith);
        }
        lemma_sum_ext(now, scaled, k as int);
        lemma_sum_scale(b, before, k as int);
        lemma_pow1(b);
        assert(now(k as int) == pow(a, k) * b);
        let l = sum(before, k as int);
        let ak = pow(a, k);
        let bk = pow(b, k);
        lemma_pow_adds(a, 1, k);
        lemma_pow_adds(b, 1, k);
        lemma_pow1(a);
        assert(pow(a, n) == a * ak);
        assert(pow(b, n) == b * bk);
        assert((a - b) * (b * l + ak * b) == b * (a * ak - b * bk)) by (nonlinear_arith)
            requires
                (a - b) * l == b * (ak - bk),
        ;
    }
}

/// The kernel of the formula at the root with index `i`: the sum of the
/// `x^j w^(i (n - j))` for `j < n`.
pub open spec fn kernel(w: int, x: int, n: int, i: int) -> int {
    sum(geometric_term(x, power_mod(w, i as nat), n), n)
}

/// A power of a root of unity is a root of unity.
proof fn lemma_root_to_the_order(w: int, n: int, i: int)
    requires
        is_power_of_two(n),
        is_primitive_root(w, n),
        0 <= i < n,
    ensures
        congruent(pow(power_mod(w, i as nat), n as nat), 1),
{
    if n == 1 {
        lemma_pow0(w);
        lemma_small_mod(1, modulus() as nat);
        lemma_pow1(1);
    } else {
        lemma_reduce(pow(w, i as nat));
        lemma_congruent_pow(power_mod(w, i as nat), pow(w, i as nat), n as nat);
        lemma_pow_multiplies(w, i as nat, n as nat);
        lemma_pow_multiplies(w, n as nat, i as nat);
        assert(i * n == n * i) by (nonlinear_arith);
        lemma_full_turn(w, n);
        lemma_congruent_pow(pow(w, n as nat), 1, i as nat);
        lemma1_pow(i as nat);
    }
}

/// The kernel is `(x^n - 1) w^i / (x - w^i)`.
proof fn lemma_kernel(w: int, x: int, n: int, i: int)
    requires
        is_power_of_two(n),
        is_primitive_root(w, n),
        0 <= i < n,
        is_unit(x - power_mod(w, i as nat)),
    ensures
        congruent(
            kernel(w, x, n, i),
            (pow(x, n as nat) - 1) * (power_mod(w, i as nat) * inverse(x - power_mod(w, i as nat))),
        ),
{
    let b = power_mod(w, i as nat);
    let v = inverse(x - b);
    let t = kernel(w, x, n, i);
    let xn = pow(x, n as nat);
    lemma_geometric(x, b, n as nat);
    lemma_root_to_the_order(w, n, i);
    // (x - b) t == b (xn - b^n), which is congruent to b (xn - 1)
    lemma_congruent_sub(xn, xn, pow(b, n as nat), 1);
    lemma_congruent_mul(b, b, xn - pow(b, n as nat), xn - 1);
    lemma_congruent_mul(v, v, (x - b) * t, b * (xn - 1));
    lemma_congruent_mul((x - b) * v, 1, t, t);
    assert(v * ((x - b) * t) == ((x - b) * v) * t) by (nonlinear_arith);
    assert(1 * t == t);
    assert(v * (b * (xn - 1)) == (xn - 1) * (b * v)) by (nonlinear_arith);
}

/// The `m`-th powers of the reduced powers of the root sum up like those of
/// the powers themselves.
proof fn lemma_power_sum(w: int, n: int, m: nat)
    requires
        is_power_of_two(n),
        is_primitive_root(w, n),
    ensures
        congruent(
            sum(|i: int| pow(power_mod(w, i as nat), m), n),
            if m % (n as nat) == 0 { n } else { 0 },
        ),
{
    let reduced = |i: int| pow(power_mod(w, i as nat), m);
    assert forall|i: int| 0 <= i < n implies congruent(
        #[trigger] reduced(i),
        root_power(w, m)(i),
    ) by {
        lemma_reduce(pow(w, i as nat));
        lemma_congruent_pow(power_mod(w, i as nat), pow(w, i as nat), m);
        lemma_pow_multiplies(w, i as nat, m);
    }
    lemma_sum_congruent(reduced, root_power(w, m), n);
    lemma_orthogonality(w, n, m);
}

/// The kernels, weighted with the `k`-th powers of the roots, sum up to
/// `n x^k`.
proof fn lemma_moment(w: int, x: int, n: int, k: int)
    requires
        is_power_of_two(n),
        is_primitive_root(w, n),
        0 <= k < n,
    ensures
        congruent(
            sum(|i: int| pow(power_mod(w, i as nat), k as nat) * kernel(w, x, n, i), n),
            n * pow(x, k as nat),
        ),
{
    let weighted = |i: int| pow(power_mod(w, i as nat), k as nat) * kernel(w, x, n, i);
    let table = |i: int, j: int|
        pow(x, j as nat) * pow(power_mod(w, i as nat), (n - j + k) as nat);
    // each weighted kernel is a row of the table
    assert forall|i: int| 0 <= i < n implies #[trigger] weighted(i) == row_sums(table, n)(i) by {
        let b = power_mod(w, i as nat);
        let bk = pow(b, k as nat);
        let g = geometric_term(x, b, n);
        let scaled = |j: int| bk * g(j);
        let row = |j: int| table(i, j);
        assert forall|j: int| 0 <= j < n implies #[trigger] scaled(j) == row(j) by {
            lemma_pow_adds(b, (n - j) as nat, k as nat);
            assert((n - j + k) as nat == (n - j) as nat + k as nat);
            assert(bk * (pow(x, j as nat) * pow(b, (n - j) as nat)) == pow(x, j as nat) * (pow(
                b,
                (n - j) as nat,
            ) * bk)) by (nonlinear_arith);
        }
        lemma_sum_scale(bk, g, n);
        lemma_sum_ext(scaled, row, n);
    }
    lemma_sum_ext(weighted, row_sums(table, n), n);
    lemma_sum_swap(table, n, n);
    // each column is x^j times a sum of powers of the roots
    let only = |j: int| if j == k { n * pow(x, k as nat) } else { 0 };
    assert forall|j: int| 0 <= j < n implies congruent(
        #[trigger] column_sums(table, n)(j),
        only(j),
    ) by {
        let m = (n - j + k) as nat;
        let powers = |i: int| pow(power_mod(w, i as nat), m);
        let column = |i: int| table(i, j);
        let scaled = |i: int| pow(x, j as nat) * powers(i);
        lemma_sum_ext(column, scaled, n);
        lemma_sum_scale(pow(x, j as nat), powers, n);
        lemma_power_sum(w, n, m);
        let total = if m % (n as nat) == 0 { n } else { 0int };
        if j == k {
            lemma_fundamental_div_mod_converse(m as int, n, 1, 0);
        } else if j < k {
            lemma_fundamental_div_mod_converse(m as int, n, 1, k - j);
        } else {
            lemma_fundamental_div_mod_converse(m as int, n, 0, n - j + k);
        }
        lemma_congruent_mul(pow(x, j as nat), pow(x, j as nat), sum(powers, n), total);
        assert(pow(x, j as nat) * 0 == 0);
        assert(pow(x, k as nat) * n == n * pow(x, k as nat)) by (nonlinear_arith);
    }
    lemma_sum_congruent(column_sums(table, n), only, n);
    lemma_sum_single(only, k, n);
}

/// The kernels, weighted with the values of `p` at the roots, sum up to
/// `n` times the value of `p` at `x`.
proof fn lemma_weighted_kernels(p: Seq<int>, w: int, x: int)
    requires
        is_power_of_two(p.len() as int),
        is_primitive_root(w, p.len() as int),
    ensures
        congruent(
            sum(
                |i: int| eval_int(p, power_mod(w, i as nat)) * kernel(w, x, p.len() as int, i),
                p.len() as int,
            ),
            p.len() * eval_int(p, x),
        ),
{
    let n = p.len() as int;
    let weighted = |i: int| eval_int(p, power_mod(w, i as nat)) * kernel(w, x, n, i);
    let table = |i: int, k: int|
        coefficient(p, k) * (pow(power_mod(w, i as nat), k as nat) * kernel(w, x, n, i));
    assert forall|i: int| 0 <= i < n implies #[trigger] weighted(i) == row_sums(table, n)(i) by {
        let b = power_mod(w, i as nat);
        let t = kernel(w, x, n, i);
        let scaled = |k: int| t * monomial(p, b)(k);
        let row = |k: int| table(i, k);
        assert forall|k: int| 0 <= k < n implies #[trigger] scaled(k) == row(k) by {
            assert(t * (coefficient(p, k) * pow(b, k as nat)) == coefficient(p, k) * (pow(
                b,
                k as nat,
            ) * t)) by (nonlinear_arith);
        }
        lemma_sum_scale(t, monomial(p, b), n);
        lemma_sum_ext(scaled, row, n);
        assert(eval_int(p, b) * t == t * eval_int(p, b)) by (nonlinear_arith);
    }
    lemma_sum_ext(weighted, row_sums(table, n), n);
    lemma_sum_swap(table, n, n);
    let target = |k: int| n * monomial(p, x)(k);
    assert forall|k: int| 0 <= k < n implies congruent(
        #[trigger] column_sums(table, n)(k),
        target(k),
    ) by {
        let moments = |i: int| pow(power_mod(w, i as nat), k as nat) * kernel(w, x, n, i);
        let column = |i: int| table(i, k);
        let scaled = |i: int| coefficient(p, k) * moments(i);
        lemma_sum_ext(column, scaled, n);
        lemma_sum_scale(coefficient(p, k), moments, n);
        lemma_moment(w, x, n, k);
        lemma_congruent_mul(
            coefficient(p, k),
            coefficient(p, k),
            sum(moments, n),
            n * pow(x, k as nat),
        );
        assert(coefficient(p, k) * (n * pow(x, k as nat)) == n * (coefficient(p, k) * pow(
            x,
            k as nat,
        ))) by (nonlinear_arith);
    }
    lemma_sum_congruent(column_sums(table, n), target, n);
    lemma_sum_scale(n, monomial(p, x), n);
}

/// Where `x` is none of the powers below `n`, the search finds nothing.
proof fn lemma_domain_index_none(w: int, x: int, n: int, i: int)
    requires
        0 <= i,
        forall|j: int| i <= j < n ==> #[trigger] power_mod(w, j as nat) != x,
    ensures
        domain_index(w, x, n, i) == n,
    decreases n - i,
{
    if i < n {
        assert(power_mod(w, i as nat) != x);
        lemma_domain_index_none(w, x, n, i + 1);
    }
}

/// For a polynomial with a power of two as its number of coefficients and a
/// primitive root of unity of that order, the barycentric formula on the
/// values at the powers of the root gives the value at `x`, for every `x`
/// off the domain: one whose differences to the powers of the root are
/// units. The number of coefficients is a unit too.
pub proof fn lemma_barycentric_evaluates(p: Seq<int>, w: int, x: int)
    requires
        canonical_poly(p),
        is_power_of_two(p.len() as int),
        is_primitive_root(w, p.len() as int),
        is_unit(p.len() as int),
        forall|i: int| 0 <= i < p.len() ==> is_unit(x - #[trigger] power_mod(w, i as nat)),
    ensures
        barycentric_value(fft_values(p, w), w, x) == poly_eval(p, x),
{
    let n = p.len() as int;
    let y = fft_values(p, w);
    let xn = pow(x, n as nat);
    let terms = barycentric_term(y, w, x);
    let kernels = |i: int| eval_int(p, power_mod(w, i as nat)) * kernel(w, x, n, i);
    let scaled = |i: int| (xn - 1) * terms(i);
    lemma_fft_evaluates(p, w);
    assert forall|j: int| 0 <= j < n implies #[trigger] power_mod(w, j as nat) != x by {
        if power_mod(w, j as nat) == x {
            lemma_zero_is_no_unit(x - power_mod(w, j as nat));
        }
    }
    lemma_domain_index_none(w, x, n, 0);
    assert forall|i: int| 0 <= i < n implies congruent(#[trigger] scaled(i), kernels(i)) by {
        let b = power_mod(w, i as nat);
        let v = inverse(x - b);
        lemma_kernel(w, x, n, i);
        assert(y[i] == poly_eval(p, b));
        lemma_reduce(eval_int(p, b));
        lemma_congruent_mul(y[i], eval_int(p, b), (xn - 1) * (b * v), kernel(w, x, n, i));
        assert((xn - 1) * (y[i] * b * v) == y[i] * ((xn - 1) * (b * v))) by (nonlinear_arith);
    }
    lemma_sum_congruent(scaled, kernels, n);
    lemma_sum_scale(xn - 1, terms, n);
    lemma_weighted_kernels(p, w, x);
    // (xn - 1) * sum == n * p(x), and the inverse of n takes the n away
    let s = sum(terms, n);
    let e = eval_int(p, x);
    let ni = inverse(n);
    assert(is_inverse(n, ni));
    lemma_congruent_mul(ni, ni, (xn - 1) * s, n * e);
    lemma_congruent_mul(n * ni, 1, e, e);
    assert(ni * (n * e) == (n * ni) * e) by (nonlinear_arith);
    assert(1 * e == e);
    assert((xn - 1) * ni * s == ni * ((xn - 1) * s)) by (nonlinear_arith);
}

} // verus!
