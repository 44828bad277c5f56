//! Evaluation at all powers of a root of unity by the radix-2 fast Fourier
//! transform.

use crate::kzg_tools::field::{FieldElement, field_add, field_mul, field_sub};
use crate::kzg_tools::modular::{
    congruent, lemma_canonical_fixed, lemma_canonical_reduced, lemma_congruent_mul,
    lemma_congruent_pow, lemma_reduce, lemma_reduced_add, lemma_reduced_sub, modulus, power_mod,
};
use crate::kzg_tools::poly_lemmas::lemma_eval_constant;
use crate::kzg_tools::poly_spec::{canonical_poly, eval_int, monomial, poly_eval};
use crate::kzg_tools::polynomial::{Polynomial, all_wf, pow, values, zeros};
use crate::kzg_tools::sums::{lemma_sum_congruent, sum};
use vstd::arithmetic::power;
use vstd::prelude::*;

verus! {

/// The coefficients of even index.
pub open spec fn evens(p: Seq<int>) -> Seq<int> {
    Seq::new(((p.len() + 1) / 2) as nat, |i: int| p[2 * i])
}

/// The coefficients of odd index.
pub open spec fn odds(p: Seq<int>) -> Seq<int> {
    Seq::new((p.len() / 2) as nat, |i: int| p[2 * i + 1])
}

/// The output of the transform at index `i`, from the transforms `e` and
/// `o` of the two halves: the butterfly `e[i] + w^i o[i]` in the lower half
/// and `e[i] - w^i o[i]` in the upper.
pub open spec fn butterfly(e: Seq<int>, o: Seq<int>, w: int, half: int, i: int) -> int {
    if i < half {
        (e[i] + power_mod(w, i as nat) * o[i]) % modulus()
    } else if i < 2 * half {
        (e[i - half] - power_mod(w, (i - half) as nat) * o[i - half]) % modulus()
    } else {
        0
    }
}

/// What the transform returns for the coefficients `p` and the root `w`,
/// whatever the length of `p` and whatever `w` is.
pub open spec fn fft_values(p: Seq<int>, w: int) -> Seq<int>
    decreases p.len(),
{
    if p.len() <= 1 {
        p
    } else {
        let half = (p.len() / 2) as int;
        let w2 = (w * w) % modulus();
        let e = fft_values(evens(p), w2);
        let o = fft_values(odds(p), w2);
        Seq::new(p.len(), |i: int| butterfly(e, o, w, half, i))
    }
}

/// `n` is a power of two.
pub open spec fn is_power_of_two(n: int) -> bool
    decreases n,
{
    n == 1 || (n > 1 && n % 2 == 0 && is_power_of_two(n / 2))
}

/// `w` to the power `n / 2` is minus one, which makes `w` a primitive
/// `n`-th root of unity when `n` is a power of two.
pub open spec fn is_primitive_root(w: int, n: int) -> bool {
    n >= 2 ==> congruent(power::pow(w, (n / 2) as nat), -1)
}

/// The transform has as many entries as there are coefficients.
pub proof fn lemma_fft_len(p: Seq<int>, w: int)
    ensures
        fft_values(p, w).len() == p.len(),
    decreases p.len(),
{
}

/// Congruent points give congruent values.
pub proof fn lemma_eval_point_congruent(p: Seq<int>, x: int, x2: int)
    requires
        congruent(x, x2),
    ensures
        congruent(eval_int(p, x), eval_int(p, x2)),
{
    assert forall|i: int| 0 <= i < p.len() implies congruent(
        #[trigger] monomial(p, x)(i),
        monomial(p, x2)(i),
    ) by {
        lemma_congruent_pow(x, x2, i as nat);
        lemma_congruent_mul(p[i], p[i], power::pow(x, i as nat), power::pow(x2, i as nat));
    }
    lemma_sum_congruent(monomial(p, x), monomial(p, x2), p.len() as int);
}

/// The first `n` monomials of `p`, split by the parity of their index.
proof fn lemma_even_odd_prefix(p: Seq<int>, x: int, n: int)
    requires
        0 <= n <= p.len(),
    ensures
        sum(monomial(p, x), n) == sum(monomial(evens(p), x * x), (n + 1) / 2) + x * sum(
            monomial(odds(p), x * x),
            n / 2,
        ),
    decreases n,
{
    if n == 0 {
        assert(x * 0 == 0);
    } else {
        lemma_even_odd_prefix(p, x, n - 1);
        let m = (n - 1) / 2;
        let sq = power::pow(x * x, m as nat);
        power::lemma_square_is_pow2(x);
        power::lemma_pow_multiplies(x, 2, m as nat);
        assert(sq == power::pow(x, (2 * m) as nat));
        let so = sum(monomial(odds(p), x * x), m);
        if (n - 1) % 2 == 0 {
            assert(n - 1 == 2 * m);
            assert((n + 1) / 2 == m + 1);
            assert(n / 2 == m);
            assert((n - 1 + 1) / 2 == m);
            assert((n - 1) / 2 == m);
            assert(monomial(evens(p), x * x)(m) == p[2 * m] * sq);
            assert(monomial(p, x)(n - 1) == p[2 * m] * sq);
        } else {
            assert(n - 1 == 2 * m + 1);
            assert((n + 1) / 2 == m + 1);
            assert(n / 2 == m + 1);
            assert((n - 1 + 1) / 2 == m + 1);
            assert((n - 1) / 2 == m);
            power::lemma_pow_adds(x, (2 * m) as nat, 1);
            power::lemma_pow1(x);
            assert((2 * m + 1) as nat == (2 * m) as nat + 1);
            let c = p[2 * m + 1];
            assert(monomial(odds(p), x * x)(m) == c * sq);
            assert(monomial(p, x)(n - 1) == c * (sq * x));
            assert(x * (so + c * sq) == x * so + c * (sq * x)) by (nonlinear_arith);
        }
    }
}

/// A polynomial is its even part at `x^2` plus `x` times its odd part at
/// `x^2`.
pub proof fn lemma_even_odd_split(p: Seq<int>, x: int)
    ensures
        eval_int(p, x) == eval_int(evens(p), x * x) + x * eval_int(odds(p), x * x),
{
    lemma_even_odd_prefix(p, x, p.len() as int);
}

/// The square of `w^i` is the `i`-th power of the square of `w`.
proof fn lemma_square_of_power(w: int, i: nat)
    ensures
        congruent(power_mod(w, i) * power_mod(w, i), power_mod((w * w) % modulus(), i)),
{
    let x = power::pow(w, i);
    lemma_reduce(x);
    lemma_congruent_mul(power_mod(w, i), x, power_mod(w, i), x);
    power::lemma_pow_distributes(w, w, i);
    lemma_reduce(w * w);
    lemma_congruent_pow(w * w, (w * w) % modulus(), i);
    lemma_reduce(power::pow((w * w) % modulus(), i));
}

/// For a power of two as length and a primitive root of that order, the
/// transform holds the values of the polynomial at the successive powers of
/// the root.
pub proof fn lemma_fft_evaluates(p: Seq<int>, w: int)
    requires
        canonical_poly(p),
        is_power_of_two(p.len() as int),
        is_primitive_root(w, p.len() as int),
    ensures
        fft_values(p, w).len() == p.len(),
        forall|i: int|
            0 <= i < p.len() ==> #[trigger] fft_values(p, w)[i] == poly_eval(
                p,
                power_mod(w, i as nat),
            ),
    decreases p.len(),
{
    let n = p.len() as int;
    if n == 1 {
        assert(p =~= seq![p[0]]);
        lemma_eval_constant(p[0], power_mod(w, 0));
        lemma_canonical_fixed(p[0]);
    } else {
        let half = n / 2;
        let w2 = (w * w) % modulus();
        let pe = evens(p);
        let po = odds(p);
        let e = fft_values(pe, w2);
        let o = fft_values(po, w2);
        assert(is_power_of_two(half));
        assert(is_primitive_root(w2, half)) by {
            if half >= 2 {
                let q = (half / 2) as nat;
                assert(half % 2 == 0);
                assert(half == q + q);
                power::lemma_pow_distributes(w, w, q);
                power::lemma_pow_adds(w, q, q);
                lemma_reduce(w * w);
                lemma_congruent_pow(w2, w * w, q);
            }
        }
        lemma_fft_evaluates(pe, w2);
        lemma_fft_evaluates(po, w2);
        assert forall|i: int| 0 <= i < n implies #[trigger] fft_values(p, w)[i] == poly_eval(
            p,
            power_mod(w, i as nat),
        ) by {
            let k = if i < half { i } else { i - half };
            let x = power_mod(w, k as nat);
            let y = power_mod(w2, k as nat);
            assert(fft_values(p, w)[i] == butterfly(e, o, w, half, i));
            assert(e[k] == poly_eval(pe, y));
            assert(o[k] == poly_eval(po, y));
            lemma_square_of_power(w, k as nat);
            lemma_eval_point_congruent(pe, x * x, y);
            lemma_eval_point_congruent(po, x * x, y);
            lemma_reduce(eval_int(pe, y));
            lemma_reduce(eval_int(po, y));
            // e[k] and o[k] are the values of the halves at x * x
            lemma_congruent_mul(x, x, o[k], eval_int(po, x * x));
            if i < half {
                lemma_even_odd_split(p, x);
                lemma_reduced_add(e[k], eval_int(pe, x * x), x * o[k], x * eval_int(po, x * x));
            } else {
                // w^i == w^k * w^half == -x
                let xi = power_mod(w, i as nat);
                power::lemma_pow_adds(w, k as nat, half as nat);
                assert(i as nat == k as nat + half as nat);
                lemma_reduce(power::pow(w, k as nat));
                lemma_congruent_mul(
                    power::pow(w, k as nat),
                    x,
                    power::pow(w, half as nat),
                    -1,
                );
                assert(x * (-1) == -x);
                lemma_reduce(power::pow(w, i as nat));
                assert(congruent(xi, -x));
                lemma_eval_point_congruent(p, xi, -x);
                lemma_even_odd_split(p, -x);
                assert((-x) * (-x) == x * x) by (nonlinear_arith);
                assert((-x) * eval_int(po, x * x) == -(x * eval_int(po, x * x)))
                    by (nonlinear_arith);
                lemma_reduced_sub(e[k], eval_int(pe, x * x), x * o[k], x * eval_int(po, x * x));
            }
        }
    }
}

/// Evaluates the polynomial at the powers of `rou` by the fast Fourier
/// transform. The result is meaningful where the number of coefficients is
/// a power of two and `rou` a primitive root of unity of that order: then
/// its entry `i` is the value at `rou^i`.
pub fn fft(polynomial: Polynomial, rou: FieldElement) -> (r: Polynomial)
    requires
        polynomial.wf(),
        rou.wf(),
        polynomial.coeff.len() >= 1,
    ensures
        r.wf(),
        r@ == fft_values(polynomial@, rou@),
        is_power_of_two(polynomial@.len() as int) && is_primitive_root(
            rou@,
            polynomial@.len() as int,
        ) ==> forall|i: int|
            0 <= i < polynomial@.len() ==> #[trigger] r@[i] == poly_eval(
                polynomial@,
                power_mod(rou@, i as nat),
            ),
    decreases polynomial.coeff.len(),
{
    let len = polynomial.coeff.len();
    let ghost p = polynomial@;
    proof {
        if is_power_of_two(p.len() as int) && is_primitive_root(rou@, p.len() as int) {
            lemma_fft_evaluates(p, rou@);
        }
    }
    if len == 1 {
        return polynomial;
    }
    let mut even = Polynomial::new(Vec::new());
    let mut odd = Polynomial::new(Vec::new());
    let mut i: usize = 0;
    while i < len
        invariant
            i <= len,
            len == polynomial.coeff.len(),
            polynomial.wf(),
            even.wf(),
            odd.wf(),
            even.coeff.len() == (i + 1) / 2,
            odd.coeff.len() == i / 2,
            forall|k: int|
                0 <= k < even.coeff.len() ==> #[trigger] even.coeff@[k] == polynomial.coeff@[2 * k],
            forall|k: int|
                0 <= k < odd.coeff.len() ==> #[trigger] odd.coeff@[k] == polynomial.coeff@[2 * k
                    + 1],
        decreases len - i,
    {
        if i % 2 == 0 {
            even.coeff.push(polynomial.coeff[i]);
        } else {
            odd.coeff.push(polynomial.coeff[i]);
        }
        i += 1;
    }
    proof {
        assert(even@ =~= evens(p));
        assert(odd@ =~= odds(p));
    }
    let half = len / 2;
    let rou_squared = field_mul(&rou, &rou);
    let even_fft = fft(even, rou_squared);
    let odd_fft = fft(odd, rou_squared);
    let ghost e = even_fft@;
    let ghost o = odd_fft@;
    proof {
        lemma_fft_len(evens(p), rou_squared@);
        lemma_fft_len(odds(p), rou_squared@);
    }
    let mut fft_values_vec = zeros(len);
    let mut i: usize = 0;
    while i < half
        invariant
            i <= half,
            half == len / 2,
            len >= 2,
            rou.wf(),
            even_fft.wf(),
            odd_fft.wf(),
            e == even_fft@,
            o == odd_fft@,
            e.len() == (len + 1) / 2,
            o.len() == half,
            fft_values_vec.len() == len,
            all_wf(fft_values_vec@),
            forall|k: int|
                0 <= k < len ==> (#[trigger] fft_values_vec@[k])@ == (if k < i || half <= k < half
                    + i {
                    butterfly(e, o, rou@, half as int, k)
                } else {
                    0
                }),
        decreases half - i,
    {
        let temp_rou = pow(rou, i);
        let t = field_mul(&temp_rou.evaluation, &odd_fft.coeff[i]);
        let lower = field_add(&even_fft.coeff[i], &t);
        let upper = field_sub(&even_fft.coeff[i], &t);
        proof {
            let x = power_mod(rou@, i as nat);
            lemma_reduce(x * o[i as int]);
            lemma_reduced_add(e[i as int], e[i as int], t@, x * o[i as int]);
            lemma_reduced_sub(e[i as int], e[i as int], t@, x * o[i as int]);
            lemma_canonical_reduced(lower@, e[i as int] + x * o[i as int]);
            lemma_canonical_reduced(upper@, e[i as int] - x * o[i as int]);
        }
        fft_values_vec.set(i, lower);
        fft_values_vec.set(i + half, upper);
        i += 1;
    }
    let r = Polynomial::new(fft_values_vec);
    proof {
        assert(r@ =~= fft_values(p, rou@));
    }
    r
}

} // verus!
