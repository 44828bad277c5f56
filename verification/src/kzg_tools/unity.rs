//! Sums over the powers of a root of unity.

use crate::kzg_tools::fft::{is_power_of_two, is_primitive_root};
use crate::kzg_tools::modular::{
    congruent, lemma_congruent_add, lemma_congruent_mul, lemma_congruent_pow,
};
use crate::kzg_tools::sums::{lemma_sum_ext, lemma_sum_scale, lemma_sum_split, sum};
use vstd::arithmetic::div_mod::{lemma_fundamental_div_mod, lemma_fundamental_div_mod_converse};
use vstd::arithmetic::power::{
    lemma_pow0, lemma_pow_adds, lemma_pow_distributes, lemma_pow_multiplies, lemma_square_is_pow2,
    pow,
};
use vstd::prelude::*;

verus! {

/// The `m`-th powers of the successive powers of `w`.
pub open spec fn root_power(w: int, m: nat) -> spec_fn(int) -> int {
    |i: int| pow(w, (i * m) as nat)
}

proof fn lemma_minus_one_power(m: nat)
    ensures
        m % 2 == 0 ==> pow(-1, m) == 1,
        m % 2 == 1 ==> pow(-1, m) == -1,
    decreases m,
{
    reveal(pow);
    if m > 0 {
        lemma_minus_one_power((m - 1) as nat);
    }
}

/// The square of a primitive root of an order of at least four is a
/// primitive root of half the order.
pub proof fn lemma_square_is_primitive(w: int, n: int)
    requires
        n >= 2,
        n % 2 == 0,
        is_power_of_two(n / 2),
        is_primitive_root(w, n),
    ensures
        is_primitive_root(w * w, n / 2),
{
    let h = n / 2;
    if h >= 2 {
        let q = (h / 2) as nat;
        assert(h % 2 == 0);
        assert(h == q + q);
        lemma_pow_distributes(w, w, q);
        lemma_pow_adds(w, q, q);
    }
}

/// A primitive `n`-th root of unity to the power `n` is one.
pub proof fn lemma_full_turn(w: int, n: int)
    requires
        n >= 2,
        n % 2 == 0,
        is_primitive_root(w, n),
    ensures
        congruent(pow(w, n as nat), 1),
{
    let h = (n / 2) as nat;
    lemma_pow_adds(w, h, h);
    lemma_congruent_mul(pow(w, h), -1, pow(w, h), -1);
    assert((-1) * (-1) == 1);
}

/// Halving an even exponent and the order keeps divisibility.
proof fn lemma_half_divides(m: nat, n: int)
    requires
        n >= 2,
        n % 2 == 0,
        m % 2 == 0,
    ensures
        (m % (n as nat) == 0) == ((m / 2) % ((n / 2) as nat) == 0),
{
    let h = n / 2;
    let k = (m / 2) as int;
    lemma_fundamental_div_mod(k, h);
    let q = k / h;
    let r = k % h;
    assert(h * q == q * h) by (nonlinear_arith);
    assert(m == q * n + 2 * r) by (nonlinear_arith)
        requires
            k == q * h + r,
            m == 2 * k,
            n == 2 * h,
    ;
    lemma_fundamental_div_mod_converse(m as int, n, q, 2 * r);
}

/// No odd number is a multiple of an even one.
proof fn lemma_odd_is_no_multiple(m: nat, n: int)
    requires
        n >= 2,
        n % 2 == 0,
        m % 2 == 1,
    ensures
        m % (n as nat) != 0,
{
    lemma_fundamental_div_mod(m as int, n);
    let q = (m as int) / n;
    let h = n / 2;
    if m % (n as nat) == 0 {
        assert(m == 2 * (h * q)) by (nonlinear_arith)
            requires
                m == n * q,
                n == 2 * h,
        ;
    }
}

/// The `m`-th powers of the `n`-th roots of unity sum up to `n` where `n`
/// divides `m`, and to zero elsewhere.
pub proof fn lemma_orthogonality(w: int, n: int, m: nat)
    requires
        is_power_of_two(n),
        is_primitive_root(w, n),
    ensures
        congruent(sum(root_power(w, m), n), if m % (n as nat) == 0 { n } else { 0 }),
    decreases n,
{
    let f = root_power(w, m);
    if n == 1 {
        assert(sum(f, 1) == sum(f, 0) + f(0));
        assert(0 * m == 0);
        lemma_pow0(w);
    } else {
        let h = n / 2;
        let c = pow(w, (h * m) as nat);
        let upper = |i: int| f(i + h);
        let scaled = |i: int| c * f(i);
        lemma_sum_split(f, h, n);
        assert forall|i: int| 0 <= i < h implies #[trigger] upper(i) == scaled(i) by {
            assert((i + h) * m == i * m + h * m) by (nonlinear_arith);
            assert(0 <= i * m) by (nonlinear_arith)
                requires
                    0 <= i,
                    0 <= m,
            ;
            assert(0 <= h * m) by (nonlinear_arith)
                requires
                    0 <= h,
                    0 <= m,
            ;
            lemma_pow_adds(w, (i * m) as nat, (h * m) as nat);
            assert(((i + h) * m) as nat == (i * m) as nat + (h * m) as nat);
            assert(pow(w, (i * m) as nat) * c == c * pow(w, (i * m) as nat)) by (nonlinear_arith);
        }
        lemma_sum_ext(upper, scaled, h);
        lemma_sum_scale(c, f, h);
        // c is minus one to the power m
        lemma_pow_multiplies(w, h as nat, m);
        lemma_congruent_pow(pow(w, h as nat), -1, m);
        lemma_minus_one_power(m);
        let s = sum(f, h);
        if m % 2 == 0 {
            let half_m = (m / 2) as nat;
            let g = root_power(w * w, half_m);
            assert forall|i: int| 0 <= i < h implies #[trigger] f(i) == g(i) by {
                lemma_square_is_pow2(w);
                assert(0 <= i * half_m) by (nonlinear_arith)
                    requires
                        0 <= i,
                        0 <= half_m,
                ;
                lemma_pow_multiplies(w, 2, (i * half_m) as nat);
                assert(2 * (i * half_m) == i * m) by (nonlinear_arith)
                    requires
                        m == 2 * half_m,
                ;
            }
            lemma_sum_ext(f, g, h);
            lemma_square_is_primitive(w, n);
            lemma_orthogonality(w * w, h, half_m);
            lemma_half_divides(m, n);
            lemma_congruent_mul(c, 1, s, s);
            assert(1 * s == s);
            let v = if m % (n as nat) == 0 { h } else { 0int };
            lemma_congruent_add(s, v, c * s, v);
        } else {
            lemma_odd_is_no_multiple(m, n);
            lemma_congruent_mul(c, -1, s, s);
            assert((-1) * s == -s);
            lemma_congruent_add(s, s, c * s, -s);
        }
    }
}

} // verus!
