//! The two source groups of the BN254 pairing and its target group.
//!
//! The groups G1 and G2 of `halo2curves::bn256` have the prime order
//! `modulus()`, and each has a fixed generator. So every point is a multiple
//! of the generator of its group, by a scalar that is unique modulo the
//! order. The view of a point is that scalar. The pairing is bilinear and
//! not degenerate, so the pairing of the two generators generates a group of
//! the same order, and each pairing value is a power of it with a unique
//! exponent.
//!
//! Points are values of the curve library and are only ever made by it: from
//! the generators, by the group operations. The contracts of the functions
//! that delegate to it state the group laws and the bilinearity of the
//! pairing in terms of scalars and exponents. They are taken on trust.

use crate::kzg_tools::field::FieldElement;
use crate::kzg_tools::modular::{congruent, modulus};
use halo2curves::bn256::{Bn256, Fr, G1, G2, Gt};
use halo2curves::group::Curve;
use halo2curves::pairing::Engine;
use vstd::prelude::*;

verus! {

/// The points of G1, in projective coordinates.
#[verifier::external_type_specification]
#[verifier::external_body]
pub struct ExG1(G1);

/// The points of G2, in projective coordinates.
#[verifier::external_type_specification]
#[verifier::external_body]
pub struct ExG2(G2);

/// The values of the pairing.
#[verifier::external_type_specification]
#[verifier::external_body]
pub struct ExGt(Gt);

/// The scalar `k` below the group order for which the point is `k` times
/// the generator of G1.
pub uninterp spec fn g1_scalar(p: G1) -> int;

/// The scalar `k` below the group order for which the point is `k` times
/// the generator of G2.
pub uninterp spec fn g2_scalar(p: G2) -> int;

/// The exponent `k` below the group order for which the value is the
/// `k`-th power of the pairing of the two generators.
pub uninterp spec fn gt_exponent(v: Gt) -> int;

/// A point of the group G1.
#[derive(Clone, Copy, Debug)]
pub struct G1Point {
    point: G1,
}

/// A point of the group G2.
#[derive(Clone, Copy, Debug)]
pub struct G2Point {
    point: G2,
}

impl View for G1Point {
    type V = int;

    closed spec fn view(&self) -> int {
        g1_scalar(self.point)
    }
}

impl View for G2Point {
    type V = int;

    closed spec fn view(&self) -> int {
        g2_scalar(self.point)
    }
}

/// `G1::generator`, the fixed generator of the group: once itself.
#[verifier::external_body]
fn g1_generator() -> (r: G1Point)
    ensures
        g1_scalar(r.point) == 1,
{
    G1Point { point: G1::generator() }
}

/// `G1 + G1`: the scalars add up modulo the group order.
#[verifier::external_body]
fn g1_add(a: &G1Point, b: &G1Point) -> (r: G1Point)
    ensures
        g1_scalar(r.point) == (g1_scalar(a.point) + g1_scalar(b.point)) % modulus(),
{
    G1Point { point: a.point + b.point }
}

/// `G1 - G1`: the scalars are subtracted modulo the group order.
#[verifier::external_body]
fn g1_sub(a: &G1Point, b: &G1Point) -> (r: G1Point)
    ensures
        g1_scalar(r.point) == (g1_scalar(a.point) - g1_scalar(b.point)) % modulus(),
{
    G1Point { point: a.point - b.point }
}

/// `G1 * Fr`, the multiplication of a point by an element of the scalar
/// field, which `Fr::from_raw` makes of the limbs: the scalar of the point
/// is multiplied by the element modulo the group order.
#[verifier::external_body]
fn g1_mul(p: &G1Point, k: &FieldElement) -> (r: G1Point)
    requires
        k.wf(),
    ensures
        g1_scalar(r.point) == (g1_scalar(p.point) * k@) % modulus(),
{
    G1Point { point: p.point * Fr::from_raw([k.l0, k.l1, k.l2, k.l3]) }
}

/// `G2::generator`, the fixed generator of the group: once itself.
#[verifier::external_body]
fn g2_generator() -> (r: G2Point)
    ensures
        g2_scalar(r.point) == 1,
{
    G2Point { point: G2::generator() }
}

/// `G2 + G2`: the scalars add up modulo the group order.
#[verifier::external_body]
fn g2_add(a: &G2Point, b: &G2Point) -> (r: G2Point)
    ensures
        g2_scalar(r.point) == (g2_scalar(a.point) + g2_scalar(b.point)) % modulus(),
{
    G2Point { point: a.point + b.point }
}

/// `G2 - G2`: the scalars are subtracted modulo the group order.
#[verifier::external_body]
fn g2_sub(a: &G2Point, b: &G2Point) -> (r: G2Point)
    ensures
        g2_scalar(r.point) == (g2_scalar(a.point) - g2_scalar(b.point)) % modulus(),
{
    G2Point { point: a.point - b.point }
}

/// `G2 * Fr`, the multiplication of a point by an element of the scalar
/// field, which `Fr::from_raw` makes of the limbs: the scalar of the point
/// is multiplied by the element modulo the group order.
#[verifier::external_body]
fn g2_mul(p: &G2Point, k: &FieldElement) -> (r: G2Point)
    requires
        k.wf(),
    ensures
        g2_scalar(r.point) == (g2_scalar(p.point) * k@) % modulus(),
{
    G2Point { point: p.point * Fr::from_raw([k.l0, k.l1, k.l2, k.l3]) }
}

/// `Engine::pairing` of `Bn256`, on the affine forms of the points that
/// `Curve::to_affine` gives. The pairing is bilinear: the pairing of `a`
/// times the one generator with `b` times the other is the pairing of the
/// generators to the power `a * b`.
#[verifier::external_body]
fn pairing(p: &G1Point, q: &G2Point) -> (r: Gt)
    ensures
        gt_exponent(r) == (g1_scalar(p.point) * g2_scalar(q.point)) % modulus(),
{
    Bn256::pairing(&p.point.to_affine(), &q.point.to_affine())
}

/// `Gt == Gt`. The pairing of the generators has the order of the groups,
/// so two of its powers are equal exactly when their exponents are.
#[verifier::external_body]
fn gt_equal(a: &Gt, b: &Gt) -> (r: bool)
    ensures
        r == (gt_exponent(*a) == gt_exponent(*b)),
{
    a == b
}

impl G1Point {
    /// The generator of the group.
    pub fn generator() -> (r: Self)
        ensures
            r@ == 1,
    {
        g1_generator()
    }

    /// The sum of two points.
    pub fn add(&self, rhs: &Self) -> (r: Self)
        ensures
            r@ == (self@ + rhs@) % modulus(),
    {
        g1_add(self, rhs)
    }

    /// The difference of two points.
    pub fn sub(&self, rhs: &Self) -> (r: Self)
        ensures
            r@ == (self@ - rhs@) % modulus(),
    {
        g1_sub(self, rhs)
    }

    /// The multiple of a point by an element of the scalar field.
    pub fn mul(&self, k: &FieldElement) -> (r: Self)
        requires
            k.wf(),
        ensures
            r@ == (self@ * k@) % modulus(),
    {
        g1_mul(self, k)
    }
}

impl G2Point {
    /// The generator of the group.
    pub fn generator() -> (r: Self)
        ensures
            r@ == 1,
    {
        g2_generator()
    }

    /// The sum of two points.
    pub fn add(&self, rhs: &Self) -> (r: Self)
        ensures
            r@ == (self@ + rhs@) % modulus(),
    {
        g2_add(self, rhs)
    }

    /// The difference of two points.
    pub fn sub(&self, rhs: &Self) -> (r: Self)
        ensures
            r@ == (self@ - rhs@) % modulus(),
    {
        g2_sub(self, rhs)
    }

    /// The multiple of a point by an element of the scalar field.
    pub fn mul(&self, k: &FieldElement) -> (r: Self)
        requires
            k.wf(),
        ensures
            r@ == (self@ * k@) % modulus(),
    {
        g2_mul(self, k)
    }
}

/// Whether the pairing of `a` with `b` equals the pairing of `c` with `d`:
/// it does exactly when the products of the scalars are congruent.
pub fn pairings_agree(a: &G1Point, b: &G2Point, c: &G1Point, d: &G2Point) -> (r: bool)
    ensures
        r == congruent(a@ * b@, c@ * d@),
{
    let left = pairing(a, b);
    let right = pairing(c, d);
    gt_equal(&left, &right)
}

} // verus!
