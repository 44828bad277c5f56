//! The ways in which a request can be malformed.

use vstd::prelude::*;

verus! {

/// Why a request was refused.
#[derive(Clone, Copy, Debug, PartialEq, Eq, Structural)]
pub enum KzgError {
    /// Inversion of zero, or division by a polynomial whose leading
    /// coefficient is zero.
    DivisionByZero,
    /// The divisor has more coefficients than the dividend.
    DegreeMismatch,
    /// The claimed evaluation is wrong: the quotient does not divide exactly.
    InvalidWitness,
    /// Two interpolation points coincide.
    InterpolationDegeneracy,
    /// The trusted setup holds too few powers.
    SetupTooSmall,
    /// At least as many opening points as the degree of the polynomial.
    TooManyOpeningPoints,
}

} // verus!
