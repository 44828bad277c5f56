//! A value of a polynomial, with the field operations on it.

use crate::kzg_tools::error::KzgError;
use crate::kzg_tools::field::{FieldElement, field_add, field_invert, field_mul, field_sub};
use crate::kzg_tools::modular::{inverse, is_unit, lemma_inverse_is, modulus};
use vstd::prelude::*;

verus! {

/// An element of the field, as the value of a polynomial.
#[derive(Clone, Copy, Debug)]
pub struct Evaluation {
    pub evaluation: FieldElement,
}

impl View for Evaluation {
    type V = int;

    open spec fn view(&self) -> int {
        self.evaluation@
    }
}

impl Evaluation {
    /// The element is canonical.
    pub open spec fn wf(&self) -> bool {
        self.evaluation.wf()
    }

    /// The given element as a value.
    pub fn new(evaluation: FieldElement) -> (r: Self)
        ensures
            r.evaluation == evaluation,
    {
        Self { evaluation }
    }

    /// The sum in the field.
    pub fn add(&self, rhs: Self) -> (r: Self)
        requires
            self.wf(),
            rhs.wf(),
        ensures
            r.wf(),
            r@ == (self@ + rhs@) % modulus(),
    {
        Evaluation::new(field_add(&self.evaluation, &rhs.evaluation))
    }

    /// The difference in the field.
    pub fn sub(&self, rhs: Self) -> (r: Self)
        requires
            self.wf(),
            rhs.wf(),
        ensures
            r.wf(),
            r@ == (self@ - rhs@) % modulus(),
    {
        Evaluation::new(field_sub(&self.evaluation, &rhs.evaluation))
    }

    /// The product in the field.
    pub fn mul(&self, rhs: &Self) -> (r: Self)
        requires
            self.wf(),
            rhs.wf(),
        ensures
            r.wf(),
            r@ == (self@ * rhs@) % modulus(),
    {
        Evaluation::new(field_mul(&self.evaluation, &rhs.evaluation))
    }

    /// Division in the field, which fails on a zero divisor only.
    pub fn div(&self, divider: Self) -> (r: Result<Self, KzgError>)
        requires
            self.wf(),
            divider.wf(),
        ensures
            divider@ == 0 ==> r == Err::<Self, KzgError>(KzgError::DivisionByZero),
            divider@ != 0 ==> r.is_ok() && is_unit(divider@) && r.unwrap().wf() && r.unwrap()@ == (
            self@ * inverse(divider@)) % modulus(),
    {
        match field_invert(&divider.evaluation) {
            None => Err(KzgError::DivisionByZero),
            Some(inv) => {
                proof {
                    lemma_inverse_is(divider@, inv@);
                }
                Ok(Evaluation::new(field_mul(&self.evaluation, &inv)))
            },
        }
    }
}

} // verus!
