//! Polynomials in writing.

use crate::kzg_tools::field::{digit, field_text, notation};
use crate::kzg_tools::polynomial::Polynomial;
use vstd::prelude::*;

verus! {

/// The decimal digits of a number.
pub open spec fn decimal(n: int) -> Seq<char>
    decreases n,
{
    if n < 10 {
        seq![digit(n)]
    } else {
        decimal(n / 10).push(digit(n % 10))
    }
}

/// The term with the coefficient `c` and the exponent `i`: `(c)x^i`.
pub open spec fn term_text(c: int, i: int) -> Seq<char> {
    "("@ + notation(c) + ")x^"@ + decimal(i)
}

/// The first `n` terms of the polynomial, joined by ` + `.
pub open spec fn polynomial_text(p: Seq<int>, n: int) -> Seq<char>
    decreases n,
{
    if n <= 0 {
        Seq::empty()
    } else if n == 1 {
        term_text(p[0], 0)
    } else {
        polynomial_text(p, n - 1) + " + "@ + term_text(p[n - 1], n - 1)
    }
}

/// `ToString::to_string` of `usize`: the decimal digits of the number.
#[verifier::external_body]
fn index_text(i: usize) -> (r: String)
    ensures
        r@ == decimal(i as int),
{
    i.to_string()
}

/// `String::push_str`: the slice is appended to the string.
#[verifier::external_body]
fn append(s: &mut String, t: &str)
    ensures
        final(s)@ == old(s)@ + t@,
{
    s.push_str(t)
}

impl Polynomial {
    /// Shows the polynomial in the string form `(c0)x^0 + (c1)x^1 + ...`.
    pub fn to_text(&self) -> (r: String)
        requires
            self.wf(),
        ensures
            r@ == polynomial_text(self@, self@.len() as int),
    {
        let mut out = String::new();
        let n = self.coeff.len();
        let mut i: usize = 0;
        while i < n
            invariant
                i <= n,
                n == self.coeff.len(),
                self.wf(),
                out@ == polynomial_text(self@, i as int),
            decreases n - i,
        {
            let ghost before = out@;
            if i > 0 {
                append(&mut out, " + ");
            }
            append(&mut out, "(");
            let c = field_text(&self.coeff[i]);
            append(&mut out, c.as_str());
            append(&mut out, ")x^");
            let e = index_text(i);
            append(&mut out, e.as_str());
            proof {
                let term = term_text(self@[i as int], i as int);
                if i == 0 {
                    assert(out@ =~= term);
                } else {
                    assert(out@ =~= before + " + "@ + term);
                }
            }
            i += 1;
        }
        out
    }
}

} // verus!
