//! Dense polynomials over the scalar field and their arithmetic.

use crate::kzg_tools::error::KzgError;
use crate::kzg_tools::evaluation::Evaluation;
use crate::kzg_tools::field::{FieldElement, field_add, field_invert, field_mul, field_sub};
use crate::kzg_tools::modular::{
    canonical, congruent, is_inverse, is_unit, lemma_canonical_reduced, lemma_congruent_add,
    lemma_congruent_canonical, lemma_congruent_mul, lemma_congruent_sub, lemma_reduce,
    lemma_reduced_add, lemma_reduced_mul, lemma_reduced_sub, modulus, power_mod,
};
use crate::kzg_tools::poly_spec::{
    coefficient, convolution, cross_term, eval_int, is_division, monomial, poly_add, poly_eval,
    poly_mul, poly_sub,
};
use crate::kzg_tools::sums::{lemma_sum_update, lemma_sum_zero, sum};
use vstd::arithmetic::power;
use vstd::prelude::*;

verus! {

/// The integers that a sequence of field elements stands for.
pub open spec fn values(s: Seq<FieldElement>) -> Seq<int> {
    Seq::new(s.len(), |i: int| s[i]@)
}

/// Every element of the sequence is canonical.
pub open spec fn all_wf(s: Seq<FieldElement>) -> bool {
    forall|i: int| 0 <= i < s.len() ==> (#[trigger] s[i]).wf()
}

/// A polynomial by its coefficients, the constant term first.
#[derive(Debug)]
pub struct Polynomial {
    pub coeff: Vec<FieldElement>,
}

impl View for Polynomial {
    type V = Seq<int>;

    open spec fn view(&self) -> Seq<int> {
        values(self.coeff@)
    }
}

impl Clone for Polynomial {
    fn clone(&self) -> (r: Self)
        ensures
            r.coeff@ == self.coeff@,
    {
        let mut coeff: Vec<FieldElement> = Vec::new();
        let n = self.coeff.len();
        let mut i: usize = 0;
        while i < n
            invariant
                i <= n,
                n == self.coeff.len(),
                coeff@ == self.coeff@.take(i as int),
            decreases n - i,
        {
            coeff.push(self.coeff[i]);
            assert(coeff@ =~= self.coeff@.take(i + 1));
            i += 1;
        }
        assert(coeff@ =~= self.coeff@);
        Polynomial { coeff }
    }
}

/// `len` zero coefficients.
pub(crate) fn zeros(len: usize) -> (r: Vec<FieldElement>)
    ensures
        r.len() == len,
        forall|k: int| 0 <= k < len ==> (#[trigger] r@[k])@ == 0 && r@[k].wf(),
{
    let mut out: Vec<FieldElement> = Vec::new();
    let mut k: usize = 0;
    while k < len
        invariant
            k <= len,
            out.len() == k,
            forall|j: int| 0 <= j < k ==> (#[trigger] out@[j])@ == 0 && out@[j].wf(),
        decreases len - k,
    {
        out.push(FieldElement::zero());
        k += 1;
    }
    out
}

impl Polynomial {
    /// Every coefficient is canonical.
    pub open spec fn wf(&self) -> bool {
        all_wf(self.coeff@)
    }

    /// The polynomial with the given coefficients.
    pub fn new(coeff: Vec<FieldElement>) -> (r: Self)
        ensures
            r.coeff == coeff,
    {
        Self { coeff }
    }

    /// A polynomial of the given degree with random coefficients.
    pub fn create_polynomial(degree: u32) -> (r: Self)
        ensures
            r.wf(),
            r.coeff.len() == degree + 1,
    {
        let mut coeff: Vec<FieldElement> = Vec::new();
        let mut i: u32 = 0;
        loop
            invariant_except_break
                i <= degree,
                coeff.len() == i,
            invariant
                all_wf(coeff@),
            ensures
                coeff.len() == degree + 1,
            decreases degree - i,
        {
            coeff.push(FieldElement::random());
            if i == degree {
                break ;
            }
            i += 1;
        }
        Polynomial::new(coeff)
    }

    /// Evaluates the polynomial in the field: the sum of the coefficients,
    /// each times its power of `val`.
    pub fn eval(&self, val: FieldElement) -> (r: Evaluation)
        requires
            self.wf(),
            val.wf(),
        ensures
            r.wf(),
            r@ == poly_eval(self@, val@),
    {
        let mut acc = FieldElement::zero();
        let n = self.coeff.len();
        let mut i: usize = 0;
        while i < n
            invariant
                i <= n,
                n == self.coeff.len(),
                self.wf(),
                val.wf(),
                acc.wf(),
                congruent(acc@, sum(monomial(self@, val@), i as int)),
            decreases n - i,
        {
            let p = pow(val, i);
            let t = field_mul(&self.coeff[i], &p.evaluation);
            proof {
                lemma_reduce(power::pow(val@, i as nat));
                lemma_reduced_mul(
                    self.coeff@[i as int]@,
                    self@[i as int],
                    p@,
                    power::pow(val@, i as nat),
                );
                lemma_reduced_add(
                    acc@,
                    sum(monomial(self@, val@), i as int),
                    t@,
                    monomial(self@, val@)(i as int),
                );
            }
            acc = field_add(&acc, &t);
            i += 1;
        }
        proof {
            lemma_canonical_reduced(acc@, eval_int(self@, val@));
        }
        Evaluation::new(acc)
    }

    /// Polynomial addition, coefficient by coefficient over the greater
    /// length.
    pub fn add_poly(&self, rhs: Vec<FieldElement>) -> (r: Self)
        requires
            self.wf(),
            all_wf(rhs@),
        ensures
            r.wf(),
            r@ == poly_add(self@, values(rhs@)),
    {
        let n = self.coeff.len();
        let m = rhs.len();
        let len = if n >= m { n } else { m };
        let mut out: Vec<FieldElement> = Vec::new();
        let mut k: usize = 0;
        while k < len
            invariant
                k <= len,
                n == self.coeff.len(),
                m == rhs.len(),
                len == if n >= m { n } else { m },
                self.wf(),
                all_wf(rhs@),
                out.len() == k,
                forall|j: int|
                    0 <= j < k ==> (#[trigger] out@[j]).wf() && out@[j]@ == (coefficient(self@, j)
                        + coefficient(values(rhs@), j)) % modulus(),
            decreases len - k,
        {
            let x = if k < n { self.coeff[k] } else { FieldElement::zero() };
            let y = if k < m { rhs[k] } else { FieldElement::zero() };
            out.push(field_add(&x, &y));
            k += 1;
        }
        let r = Polynomial::new(out);
        assert(r@ =~= poly_add(self@, values(rhs@)));
        r
    }

    /// Polynomial subtraction, coefficient by coefficient over the greater
    /// length.
    pub fn sub_poly(&self, rhs: Vec<FieldElement>) -> (r: Self)
        requires
            self.wf(),
            all_wf(rhs@),
        ensures
            r.wf(),
            r@ == poly_sub(self@, values(rhs@)),
    {
        let n = self.coeff.len();
        let m = rhs.len();
        let len = if n >= m { n } else { m };
        let mut out: Vec<FieldElement> = Vec::new();
        let mut k: usize = 0;
        while k < len
            invariant
                k <= len,
                n == self.coeff.len(),
                m == rhs.len(),
                len == if n >= m { n } else { m },
                self.wf(),
                all_wf(rhs@),
                out.len() == k,
                forall|j: int|
                    0 <= j < k ==> (#[trigger] out@[j]).wf() && out@[j]@ == (coefficient(self@, j)
                        - coefficient(values(rhs@), j)) % modulus(),
            decreases len - k,
        {
            let x = if k < n { self.coeff[k] } else { FieldElement::zero() };
            let y = if k < m { rhs[k] } else { FieldElement::zero() };
            out.push(field_sub(&x, &y));
            k += 1;
        }
        let r = Polynomial::new(out);
        assert(r@ =~= poly_sub(self@, values(rhs@)));
        r
    }

    /// Draws the given number of random points and evaluates the polynomial
    /// at each. Returns the points and, in the same order, the values.
    pub fn eval_of_z_points(&self, k_points: u32) -> (r: (Self, Self))
        requires
            self.wf(),
        ensures
            r.0.wf(),
            r.1.wf(),
            r.0.coeff.len() == k_points,
            r.1.coeff.len() == k_points,
            forall|m: int| 0 <= m < k_points ==> #[trigger] r.1@[m] == poly_eval(self@, r.0@[m]),
    {
        let mut z_points: Vec<FieldElement> = Vec::new();
        let mut y_points: Vec<FieldElement> = Vec::new();
        let mut i: u32 = 0;
        while i < k_points
            invariant
                i <= k_points,
                self.wf(),
                z_points.len() == i,
                y_points.len() == i,
                all_wf(z_points@),
                all_wf(y_points@),
                forall|m: int|
                    0 <= m < i ==> (#[trigger] y_points@[m])@ == poly_eval(self@, z_points@[m]@),
            decreases k_points - i,
        {
            let random_num = FieldElement::random();
            let eval = self.eval(random_num);
            y_points.push(eval.evaluation);
            z_points.push(random_num);
            i += 1;
        }
        (Polynomial::new(z_points), Polynomial::new(y_points))
    }

    /// Polynomial long division, from the top coefficient down. It fails
    /// with `DegreeMismatch` where the divisor has more coefficients than the
    /// dividend, and else with `DivisionByZero` where the divisor is empty or
    /// its leading coefficient is zero. On success the polynomial itself
    /// becomes the remainder, without trailing zeros, which is also returned
    /// beside the quotient; on failure it is left as it was.
    pub fn div_poly(&mut self, den: Vec<FieldElement>) -> (r: Result<
        (Polynomial, Polynomial),
        KzgError,
    >)
        requires
            old(self).wf(),
            all_wf(den@),
        ensures
            final(self).wf(),
            den.len() > old(self).coeff.len() ==> r == Err::<(Polynomial, Polynomial), KzgError>(
                KzgError::DegreeMismatch,
            ),
            den.len() <= old(self).coeff.len() && (den.len() == 0 || den@.last()@ == 0) ==> r
                == Err::<(Polynomial, Polynomial), KzgError>(KzgError::DivisionByZero),
            r.is_err() ==> final(self).coeff@ == old(self).coeff@,
            0 < den.len() <= old(self).coeff.len() && den@.last()@ != 0 ==> r.is_ok(),
            r matches Ok((q, rem)) ==> {
                &&& q.wf()
                &&& rem.wf()
                &&& rem.coeff@ == final(self).coeff@
                &&& is_unit(den@.last()@)
                &&& is_division(old(self)@, values(den@), q@, rem@)
            },
    {
        let n_len = self.coeff.len();
        let d_len = den.len();
        if d_len > n_len {
            return Err(KzgError::DegreeMismatch);
        }
        if d_len == 0 {
            return Err(KzgError::DivisionByZero);
        }
        let inv = match field_invert(&den[d_len - 1]) {
            None => {
                return Err(KzgError::DivisionByZero);
            },
            Some(v) => v,
        };
        let ghost n = self@;
        let ghost d = values(den@);
        let ghost lead = d[d_len - 1];
        assert(is_unit(lead)) by {
            assert(is_inverse(lead, inv@));
        }
        let diff = n_len - d_len;
        let mut quotient = zeros(diff + 1);
        proof {
            assert forall|k: int| 0 <= k < n_len implies congruent(
                #[trigger] n[k],
                convolution(values(quotient@), d, k) + self.coeff@[k]@,
            ) by {
                lemma_sum_zero(cross_term(values(quotient@), d, k), diff + 1);
            }
        }
        let mut i: usize = diff + 1;
        while i > 0
            invariant
                i <= diff + 1,
                n_len == self.coeff.len(),
                d_len == den.len(),
                0 < d_len <= n_len,
                diff == n_len - d_len,
                quotient.len() == diff + 1,
                all_wf(den@),
                all_wf(quotient@),
                self.wf(),
                inv.wf(),
                d == values(den@),
                n.len() == n_len,
                lead == d[d_len - 1],
                (lead * inv@) % modulus() == 1,
                forall|k: int| 0 <= k < i ==> (#[trigger] quotient@[k])@ == 0,
                forall|k: int| d_len - 1 + i <= k < n_len ==> (#[trigger] self.coeff@[k])@ == 0,
                forall|k: int|
                    0 <= k < n_len ==> congruent(
                        #[trigger] n[k],
                        convolution(values(quotient@), d, k) + self.coeff@[k]@,
                    ),
            decreases i,
        {
            i -= 1;
            let n_idx = d_len - 1 + i;
            let c = field_mul(&self.coeff[n_idx], &inv);
            let ghost q_before = values(quotient@);
            let ghost cur_before = self.coeff@;
            quotient.set(i, c);
            let ghost q_after = values(quotient@);
            let mut j: usize = 0;
            while j < d_len
                invariant
                    j <= d_len,
                    i <= diff,
                    n_idx == d_len - 1 + i,
                    n_len == self.coeff.len(),
                    d_len == den.len(),
                    0 < d_len <= n_len,
                    diff == n_len - d_len,
                    all_wf(den@),
                    self.wf(),
                    c.wf(),
                    d == values(den@),
                    cur_before.len() == n_len,
                    forall|k: int|
                        0 <= k < n_len ==> congruent(
                            (#[trigger] self.coeff@[k])@,
                            cur_before[k]@ - (if n_idx - j < k <= n_idx {
                                c@ * coefficient(d, k - i)
                            } else {
                                0
                            }),
                        ),
                    forall|k: int|
                        n_idx < k < n_len ==> #[trigger] self.coeff@[k] == cur_before[k],
                decreases d_len - j,
            {
                let t = field_mul(&c, &den[d_len - 1 - j]);
                let v = field_sub(&self.coeff[n_idx - j], &t);
                proof {
                    let k = n_idx - j;
                    lemma_reduce(c@ * coefficient(d, k - i));
                    lemma_reduced_sub(
                        self.coeff@[k]@,
                        cur_before[k]@,
                        t@,
                        c@ * coefficient(d, k - i),
                    );
                }
                self.coeff.set(n_idx - j, v);
                j += 1;
            }
            proof {
                let cur_after = self.coeff@;
                // the top coefficient is cleared
                assert(cur_after[n_idx as int]@ == 0) by {
                    let top = cur_before[n_idx as int]@;
                    // c == top * inv, so c * lead == top * (inv * lead) == top
                    lemma_reduce(top * inv@);
                    lemma_congruent_mul(c@, top * inv@, lead, lead);
                    lemma_congruent_mul(top, top, lead * inv@, 1);
                    assert((top * inv@) * lead == top * (lead * inv@)) by (nonlinear_arith);
                    assert(top * 1 == top);
                    assert(congruent(c@ * lead, top));
                    lemma_congruent_sub(top, top, c@ * lead, top);
                    assert(coefficient(d, n_idx - i) == lead);
                    lemma_congruent_canonical(cur_after[n_idx as int]@, 0);
                }
                assert forall|k: int| 0 <= k < n_len implies congruent(
                    #[trigger] n[k],
                    convolution(q_after, d, k) + cur_after[k]@,
                ) by {
                    lemma_sum_update(
                        cross_term(q_before, d, k),
                        cross_term(q_after, d, k),
                        i as int,
                        diff + 1,
                    );
                    assert(cross_term(q_before, d, k)(i as int) == 0 * coefficient(d, k - i));
                    let delta = c@ * coefficient(d, k - i);
                    assert(convolution(q_after, d, k) == convolution(q_before, d, k) + delta);
                    if !(i <= k <= n_idx) {
                        assert(coefficient(d, k - i) == 0);
                        assert(c@ * 0 == 0);
                    }
                    assert(congruent(cur_after[k]@, cur_before[k]@ - delta));
                    lemma_congruent_add(
                        convolution(q_after, d, k),
                        convolution(q_after, d, k),
                        cur_after[k]@,
                        cur_before[k]@ - delta,
                    );
                }
            }
        }
        // drop the trailing zeros of the remainder
        let ghost full = self.coeff@;
        let mut len = n_len;
        while len > 1 && self.coeff[len - 1].is_zero()
            invariant
                1 <= len <= n_len,
                len == self.coeff.len(),
                self.wf(),
                full.len() == n_len,
                forall|k: int| 0 <= k < len ==> #[trigger] self.coeff@[k] == full[k],
                forall|k: int| len <= k < n_len ==> (#[trigger] full[k])@ == 0,
            decreases len,
        {
            self.coeff.pop();
            len -= 1;
        }
        let remainder = self.clone();
        let q = Polynomial::new(quotient);
        proof {
            let rem = remainder@;
            assert(rem =~= values(self.coeff@));
            assert forall|k: int| 0 <= k < n_len implies #[trigger] poly_add(
                poly_mul(q@, d),
                rem,
            )[k] == n[k] by {
                assert(coefficient(rem, k) == full[k]@);
                lemma_reduce(convolution(q@, d, k));
                lemma_reduced_add(
                    convolution(q@, d, k) % modulus(),
                    convolution(q@, d, k),
                    coefficient(rem, k),
                    full[k]@,
                );
                lemma_congruent_canonical(n[k], poly_add(poly_mul(q@, d), rem)[k]);
            }
            assert(poly_add(poly_mul(q@, d), rem) =~= n);
            if d_len == 1 {
                assert(rem =~= seq![0int]);
            }
        }
        Ok((q, remainder))
    }

    /// Polynomial multiplication: the convolution of the coefficients. The
    /// product has one coefficient less than the factors have together.
    pub fn mul_poly(&self, rhs: Vec<FieldElement>) -> (r: Self)
        requires
            self.wf(),
            all_wf(rhs@),
            self.coeff.len() + rhs.len() <= usize::MAX,
        ensures
            r.wf(),
            r@ == poly_mul(self@, values(rhs@)),
    {
        let n = self.coeff.len();
        let m = rhs.len();
        let ghost a = self@;
        let ghost b = values(rhs@);
        if n == 0 && m == 0 {
            let r = Polynomial::new(Vec::new());
            assert(r@ =~= poly_mul(a, b));
            return r;
        }
        let p_len = n + m - 1;
        let mut out = zeros(p_len);
        let mut i: usize = 0;
        while i < n
            invariant
                i <= n,
                n == self.coeff.len(),
                m == rhs.len(),
                p_len == n + m - 1,
                a == self@,
                b == values(rhs@),
                self.wf(),
                all_wf(rhs@),
                out.len() == p_len,
                forall|k: int|
                    0 <= k < p_len ==> (#[trigger] out@[k]).wf() && congruent(
                        out@[k]@,
                        sum(cross_term(a, b, k), i as int),
                    ),
            decreases n - i,
        {
            let mut j: usize = 0;
            while j < m
                invariant
                    i < n,
                    j <= m,
                    n == self.coeff.len(),
                    m == rhs.len(),
                    p_len == n + m - 1,
                    a == self@,
                    b == values(rhs@),
                    self.wf(),
                    all_wf(rhs@),
                    out.len() == p_len,
                    forall|k: int|
                        0 <= k < p_len ==> (#[trigger] out@[k]).wf() && congruent(
                            out@[k]@,
                            sum(cross_term(a, b, k), i as int) + (if i <= k < i + j {
                                a[i as int] * b[k - i]
                            } else {
                                0
                            }),
                        ),
                decreases m - j,
            {
                let t = field_mul(&self.coeff[i], &rhs[j]);
                let v = field_add(&out[i + j], &t);
                proof {
                    lemma_reduce(a[i as int] * b[j as int]);
                    lemma_reduced_add(
                        out@[i + j]@,
                        sum(cross_term(a, b, i + j), i as int),
                        t@,
                        a[i as int] * b[j as int],
                    );
                }
                out.set(i + j, v);
                j += 1;
            }
            proof {
                assert forall|k: int| 0 <= k < p_len implies congruent(
                    (#[trigger] out@[k])@,
                    sum(cross_term(a, b, k), i + 1),
                ) by {
                    let here = if i <= k < i + m {
                        a[i as int] * b[k - i]
                    } else {
                        0
                    };
                    assert(cross_term(a, b, k)(i as int) == coefficient(a, i as int) * coefficient(
                        b,
                        k - i,
                    ));
                    if !(i <= k < i + m) {
                        assert(coefficient(b, k - i) == 0);
                        assert(coefficient(a, i as int) * 0 == 0);
                    }
                    assert(cross_term(a, b, k)(i as int) == here);
                    assert(sum(cross_term(a, b, k), i + 1) == sum(cross_term(a, b, k), i as int)
                        + here);
                }
            }
            i += 1;
        }
        let r = Polynomial::new(out);
        proof {
            assert forall|k: int| 0 <= k < p_len implies #[trigger] r@[k] == convolution(a, b, k)
                % modulus() by {
                lemma_canonical_reduced(out@[k]@, convolution(a, b, k));
            }
            assert(r@ =~= poly_mul(a, b));
        }
        r
    }
}

/// The power of a field element.
pub fn pow(base: FieldElement, exp: usize) -> (r: Evaluation)
    requires
        base.wf(),
    ensures
        r.wf(),
        r@ == power_mod(base@, exp as nat),
{
    let mut acc = FieldElement::one();
    let mut i: usize = 0;
    proof {
        power::lemma_pow0(base@);
    }
    while i < exp
        invariant
            i <= exp,
            base.wf(),
            acc.wf(),
            congruent(acc@, power::pow(base@, i as nat)),
        decreases exp - i,
    {
        proof {
            reveal(power::pow);
            lemma_reduced_mul(acc@, power::pow(base@, i as nat), base@, base@);
            assert(power::pow(base@, (i + 1) as nat) == base@ * power::pow(base@, i as nat));
            assert(base@ * power::pow(base@, i as nat) == power::pow(base@, i as nat) * base@)
                by (nonlinear_arith);
        }
        acc = field_mul(&acc, &base);
        i += 1;
    }
    proof {
        lemma_canonical_reduced(acc@, power::pow(base@, exp as nat));
    }
    Evaluation { evaluation: acc }
}

} // verus!
