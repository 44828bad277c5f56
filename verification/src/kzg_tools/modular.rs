//! Integers modulo the order of the scalar field.
//!
//! Field elements are modelled by their canonical representatives in
//! `0..modulus()`. Most reasoning is done on arbitrary integers up to
//! congruence, and reduced at the end.

use vstd::arithmetic::div_mod::{
    lemma_add_mod_noop, lemma_mod_bound, lemma_mul_mod_noop_general, lemma_small_mod,
    lemma_sub_mod_noop,
};
use vstd::arithmetic::power::pow;
use vstd::prelude::*;

verus! {

/// The prime order `r` of the BN254 scalar field.
pub open spec fn modulus() -> int {
    0x30644e72e131a029b85045b68181585d2833e84879b9709143e1f593f0000001int
}

/// `a` is the canonical representative of its residue class.
pub open spec fn canonical(a: int) -> bool {
    0 <= a < modulus()
}

/// `a` and `b` denote the same field element.
pub open spec fn congruent(a: int, b: int) -> bool {
    a % modulus() == b % modulus()
}

/// `b` is the multiplicative inverse of `a` in the field.
pub open spec fn is_inverse(a: int, b: int) -> bool {
    canonical(b) && (a * b) % modulus() == 1
}

/// `a` has a multiplicative inverse.
pub open spec fn is_unit(a: int) -> bool {
    exists|b: int| is_inverse(a, b)
}

/// The multiplicative inverse of a unit.
pub open spec fn inverse(a: int) -> int {
    choose|b: int| is_inverse(a, b)
}

/// `b` to the power `e` in the field.
pub open spec fn power_mod(b: int, e: nat) -> int {
    pow(b, e) % modulus()
}

/// The remainder is canonical and congruent to the number.
pub proof fn lemma_reduce(a: int)
    ensures
        canonical(a % modulus()),
        congruent(a % modulus(), a),
{
    lemma_mod_bound(a, modulus());
    lemma_small_mod((a % modulus()) as nat, modulus() as nat);
}

/// A canonical representative is its own remainder.
pub proof fn lemma_canonical_fixed(a: int)
    requires
        canonical(a),
    ensures
        a % modulus() == a,
{
    lemma_small_mod(a as nat, modulus() as nat);
}

/// Congruent canonical representatives are equal.
pub proof fn lemma_congruent_canonical(a: int, b: int)
    requires
        canonical(a),
        canonical(b),
        congruent(a, b),
    ensures
        a == b,
{
    lemma_canonical_fixed(a);
    lemma_canonical_fixed(b);
}

/// Sums of congruent numbers are congruent.
pub proof fn lemma_congruent_add(a: int, a2: int, b: int, b2: int)
    requires
        congruent(a, a2),
        congruent(b, b2),
    ensures
        congruent(a + b, a2 + b2),
{
    lemma_add_mod_noop(a, b, modulus());
    lemma_add_mod_noop(a2, b2, modulus());
}

/// Differences of congruent numbers are congruent.
pub proof fn lemma_congruent_sub(a: int, a2: int, b: int, b2: int)
    requires
        congruent(a, a2),
        congruent(b, b2),
    ensures
        congruent(a - b, a2 - b2),
{
    lemma_sub_mod_noop(a, b, modulus());
    lemma_sub_mod_noop(a2, b2, modulus());
}

/// Products of congruent numbers are congruent.
pub proof fn lemma_congruent_mul(a: int, a2: int, b: int, b2: int)
    requires
        congruent(a, a2),
        congruent(b, b2),
    ensures
        congruent(a * b, a2 * b2),
{
    lemma_mul_mod_noop_general(a, b, modulus());
    lemma_mul_mod_noop_general(a2, b2, modulus());
}

/// Powers of congruent numbers are congruent.
pub proof fn lemma_congruent_pow(a: int, a2: int, e: nat)
    requires
        congruent(a, a2),
    ensures
        congruent(pow(a, e), pow(a2, e)),
    decreases e,
{
    reveal(pow);
    if e > 0 {
        lemma_congruent_pow(a, a2, (e - 1) as nat);
        lemma_congruent_mul(a, a2, pow(a, (e - 1) as nat), pow(a2, (e - 1) as nat));
    }
}

/// A canonical representative congruent to `b` is `b` reduced.
pub proof fn lemma_canonical_reduced(a: int, b: int)
    requires
        canonical(a),
        congruent(a, b),
    ensures
        a == b % modulus(),
{
    lemma_canonical_fixed(a);
}

/// The sum in the field stands for the sum of what the summands stand for.
pub proof fn lemma_reduced_add(a: int, a2: int, b: int, b2: int)
    requires
        congruent(a, a2),
        congruent(b, b2),
    ensures
        congruent((a + b) % modulus(), a2 + b2),
{
    lemma_congruent_add(a, a2, b, b2);
    lemma_reduce(a + b);
}

/// The difference in the field stands for the difference of what its terms
/// stand for.
pub proof fn lemma_reduced_sub(a: int, a2: int, b: int, b2: int)
    requires
        congruent(a, a2),
        congruent(b, b2),
    ensures
        congruent((a - b) % modulus(), a2 - b2),
{
    lemma_congruent_sub(a, a2, b, b2);
    lemma_reduce(a - b);
}

/// The product in the field stands for the product of what the factors
/// stand for.
pub proof fn lemma_reduced_mul(a: int, a2: int, b: int, b2: int)
    requires
        congruent(a, a2),
        congruent(b, b2),
    ensures
        congruent((a * b) % modulus(), a2 * b2),
{
    lemma_congruent_mul(a, a2, b, b2);
    lemma_reduce(a * b);
}

/// A multiple of a number congruent to zero is congruent to zero.
pub proof fn lemma_congruent_zero_mul(a: int, b: int)
    requires
        congruent(a, 0),
    ensures
        congruent(a * b, 0),
        congruent(b * a, 0),
{
    lemma_congruent_mul(a, 0, b, b);
    lemma_congruent_mul(b, b, a, 0);
    assert(0 * b == 0);
    assert(b * 0 == 0);
}

/// An element has at most one inverse.
pub proof fn lemma_inverse_unique(a: int, b: int, c: int)
    requires
        is_inverse(a, b),
        is_inverse(a, c),
    ensures
        b == c,
{
    // b == b * (a * c) == (a * b) * c == c, all modulo the order
    lemma_congruent_mul(b, b, a * c, 1);
    lemma_congruent_mul(a * b, 1, c, c);
    assert(b * (a * c) == (a * b) * c) by (nonlinear_arith);
    assert(b * 1 == b);
    assert(1 * c == c);
    lemma_congruent_canonical(b, c);
}

/// Whoever exhibits an inverse knows the inverse.
pub proof fn lemma_inverse_is(a: int, b: int)
    requires
        is_inverse(a, b),
    ensures
        is_unit(a),
        inverse(a) == b,
{
    lemma_inverse_unique(a, b, inverse(a));
}

/// Zero has no inverse.
pub proof fn lemma_zero_is_no_unit(a: int)
    requires
        congruent(a, 0),
    ensures
        !is_unit(a),
{
    if is_unit(a) {
        let b = inverse(a);
        lemma_congruent_zero_mul(a, b);
    }
}

/// Whatever is congruent to a unit is a unit.
pub proof fn lemma_unit_congruent(a: int, a2: int)
    requires
        is_unit(a),
        congruent(a, a2),
    ensures
        is_unit(a2),
{
    let b = inverse(a);
    lemma_congruent_mul(a, a2, b, b);
    assert(is_inverse(a2, b));
}

/// A unit is no zero divisor.
pub proof fn lemma_unit_cancel(a: int, x: int)
    requires
        is_unit(a),
        congruent(a * x, 0),
    ensures
        congruent(x, 0),
{
    let b = inverse(a);
    lemma_congruent_mul(b, b, a * x, 0);
    lemma_congruent_mul(a * b, 1, x, x);
    assert(b * (a * x) == (a * b) * x) by (nonlinear_arith);
    assert(b * 0 == 0);
    assert(1 * x == x);
}

} // verus!
