//! Elements of the BN254 scalar field.
//!
//! A [`FieldElement`] stores the canonical representative of a residue class
//! as four little-endian 64-bit limbs. Its view is that integer.
//!
//! Arithmetic is delegated to `halo2curves::bn256::Fr`, the field of integers
//! modulo the prime `modulus()`. Each delegating function hands the limbs of
//! its arguments to `Fr::from_raw`, which reads them as the integer they
//! spell, and takes the result back through `Fr::to_bytes`, the
//! little-endian bytes of the canonical representative. The contracts of
//! these functions say what the operation of the field is on those integers;
//! they are taken on trust.

use crate::kzg_tools::modular::{canonical, modulus};
use halo2curves::bn256::Fr;
use halo2curves::ff::{Field, PrimeField};
use vstd::prelude::*;

verus! {

/// Two to the power 64.
pub open spec fn limb_base() -> int {
    0x1_0000_0000_0000_0000int
}

/// The integer with little-endian 64-bit digits `l0`, `l1`, `l2`, `l3`.
pub open spec fn limbs_to_int(l0: u64, l1: u64, l2: u64, l3: u64) -> int {
    l0 + limb_base() * (l1 + limb_base() * (l2 + limb_base() * l3))
}

/// An element of the scalar field.
#[derive(Clone, Copy, Debug, PartialEq, Eq, Structural)]
pub struct FieldElement {
    pub(crate) l0: u64,
    pub(crate) l1: u64,
    pub(crate) l2: u64,
    pub(crate) l3: u64,
}

impl View for FieldElement {
    type V = int;

    closed spec fn view(&self) -> int {
        limbs_to_int(self.l0, self.l1, self.l2, self.l3)
    }
}

impl FieldElement {
    /// The stored integer is below the modulus.
    pub open spec fn wf(&self) -> bool {
        canonical(self@)
    }

    /// The additive identity.
    pub fn zero() -> (r: FieldElement)
        ensures
            r.wf(),
            r@ == 0,
    {
        FieldElement { l0: 0, l1: 0, l2: 0, l3: 0 }
    }

    /// The multiplicative identity.
    pub fn one() -> (r: FieldElement)
        ensures
            r.wf(),
            r@ == 1,
    {
        FieldElement { l0: 1, l1: 0, l2: 0, l3: 0 }
    }

    /// The element that stands for a small number.
    pub fn from_u64(v: u64) -> (r: FieldElement)
        ensures
            r.wf(),
            r@ == v,
    {
        FieldElement { l0: v, l1: 0, l2: 0, l3: 0 }
    }

    /// The element that stands for a number below `2^128`.
    pub fn from_u128(v: u128) -> (r: FieldElement)
        ensures
            r.wf(),
            r@ == v,
    {
        let lo: u64 = (v & 0xffff_ffff_ffff_ffff) as u64;
        let hi: u64 = (v >> 64) as u64;
        assert(v == (v & 0xffff_ffff_ffff_ffff) + 0x1_0000_0000_0000_0000 * (v >> 64))
            by (bit_vector);
        assert((v & 0xffff_ffff_ffff_ffff) <= 0xffff_ffff_ffff_ffff) by (bit_vector);
        assert((v >> 64) <= 0xffff_ffff_ffff_ffff) by (bit_vector);
        FieldElement { l0: lo, l1: hi, l2: 0, l3: 0 }
    }

    /// The element with the given little-endian limbs, if they denote an
    /// integer below the modulus.
    pub fn from_limbs(limbs: [u64; 4]) -> (r: Option<FieldElement>)
        ensures
            r.is_some() == canonical(limbs_to_int(limbs[0], limbs[1], limbs[2], limbs[3])),
            r matches Some(e) ==> e.wf() && e@ == limbs_to_int(
                limbs[0],
                limbs[1],
                limbs[2],
                limbs[3],
            ),
    {
        let l0: u64 = limbs[0];
        let l1: u64 = limbs[1];
        let l2: u64 = limbs[2];
        let l3: u64 = limbs[3];
        let below = l3 < 0x30644e72e131a029 || (l3 == 0x30644e72e131a029 && (l2
            < 0xb85045b68181585d || (l2 == 0xb85045b68181585d && (l1 < 0x2833e84879b97091 || (l1
            == 0x2833e84879b97091 && l0 < 0x43e1f593f0000001)))));
        if below {
            Some(FieldElement { l0, l1, l2, l3 })
        } else {
            None
        }
    }

    /// The little-endian limbs of the canonical representative.
    pub fn limbs(&self) -> (r: [u64; 4])
        ensures
            self@ == limbs_to_int(r[0], r[1], r[2], r[3]),
    {
        [self.l0, self.l1, self.l2, self.l3]
    }

    /// A random element of the field.
    pub fn random() -> (r: FieldElement)
        ensures
            r.wf(),
    {
        field_random()
    }

    /// Whether the element is the additive identity.
    pub fn is_zero(&self) -> (r: bool)
        ensures
            r == (self@ == 0),
    {
        self.l0 == 0 && self.l1 == 0 && self.l2 == 0 && self.l3 == 0
    }

    /// Whether two elements are the same.
    pub fn equals(&self, other: &FieldElement) -> (r: bool)
        ensures
            r == (self@ == other@),
    {
        self.l0 == other.l0 && self.l1 == other.l1 && self.l2 == other.l2 && self.l3 == other.l3
    }
}

/// The generator of the subgroup of order `2^28` that the field fixes.
pub open spec fn root_of_unity_value() -> int {
    0x03ddb9f5166d18b798865ea93dd31f743215cf6dd39329c8d34f1ed960c37c9cint
}

/// The numeral of the digit `d`, in any base up to sixteen.
pub open spec fn digit(d: int) -> char {
    seq!['0', '1', '2', '3', '4', '5', '6', '7', '8', '9', 'a', 'b', 'c', 'd', 'e', 'f'][d]
}

/// The last `count` hexadecimal digits of `v`, the most significant first.
pub open spec fn hexadecimal(v: int, count: nat) -> Seq<char>
    decreases count,
{
    if count == 0 {
        Seq::empty()
    } else {
        hexadecimal(v / 16, (count - 1) as nat).push(digit(v % 16))
    }
}

/// How an element is written: `0x` and the 64 hexadecimal digits of its
/// canonical representative.
pub open spec fn notation(v: int) -> Seq<char> {
    "0x"@ + hexadecimal(v, 64)
}

/// `Debug` of `Fr`, which writes `0x` and then the bytes of the canonical
/// representative, the most significant first, with two hexadecimal digits
/// each.
#[verifier::external_body]
pub(crate) fn field_text(a: &FieldElement) -> (r: String)
    requires
        a.wf(),
    ensures
        r@ == notation(a@),
{
    format!("{:?}", Fr::from_raw([a.l0, a.l1, a.l2, a.l3]))
}

/// `Fr + Fr`: the sum in the field, which is the sum of the integers modulo
/// the field order.
#[verifier::external_body]
pub(crate) fn field_add(a: &FieldElement, b: &FieldElement) -> (r: FieldElement)
    requires
        a.wf(),
        b.wf(),
    ensures
        r.wf(),
        r@ == (a@ + b@) % modulus(),
{
    let v = Fr::from_raw([a.l0, a.l1, a.l2, a.l3]) + Fr::from_raw([b.l0, b.l1, b.l2, b.l3]);
    let t = v.to_bytes();
    FieldElement {
        l0: u64::from_le_bytes(t[0..8].try_into().unwrap()),
        l1: u64::from_le_bytes(t[8..16].try_into().unwrap()),
        l2: u64::from_le_bytes(t[16..24].try_into().unwrap()),
        l3: u64::from_le_bytes(t[24..32].try_into().unwrap()),
    }
}

/// `Fr - Fr`: the difference in the field, which is the difference of the
/// integers modulo the field order.
#[verifier::external_body]
pub(crate) fn field_sub(a: &FieldElement, b: &FieldElement) -> (r: FieldElement)
    requires
        a.wf(),
        b.wf(),
    ensures
        r.wf(),
        r@ == (a@ - b@) % modulus(),
{
    let v = Fr::from_raw([a.l0, a.l1, a.l2, a.l3]) - Fr::from_raw([b.l0, b.l1, b.l2, b.l3]);
    let t = v.to_bytes();
    FieldElement {
        l0: u64::from_le_bytes(t[0..8].try_into().unwrap()),
        l1: u64::from_le_bytes(t[8..16].try_into().unwrap()),
        l2: u64::from_le_bytes(t[16..24].try_into().unwrap()),
        l3: u64::from_le_bytes(t[24..32].try_into().unwrap()),
    }
}

/// `Fr * Fr`: the product in the field, which is the product of the integers
/// modulo the field order.
#[verifier::external_body]
pub(crate) fn field_mul(a: &FieldElement, b: &FieldElement) -> (r: FieldElement)
    requires
        a.wf(),
        b.wf(),
    ensures
        r.wf(),
        r@ == (a@ * b@) % modulus(),
{
    let v = Fr::from_raw([a.l0, a.l1, a.l2, a.l3]) * Fr::from_raw([b.l0, b.l1, b.l2, b.l3]);
    let t = v.to_bytes();
    FieldElement {
        l0: u64::from_le_bytes(t[0..8].try_into().unwrap()),
        l1: u64::from_le_bytes(t[8..16].try_into().unwrap()),
        l2: u64::from_le_bytes(t[16..24].try_into().unwrap()),
        l3: u64::from_le_bytes(t[24..32].try_into().unwrap()),
    }
}

/// `Field::invert` of `Fr`: the multiplicative inverse. It fails on zero and,
/// the field order being prime, on nothing else; the inverse times the
/// argument is one modulo the field order.
#[verifier::external_body]
pub(crate) fn field_invert(a: &FieldElement) -> (r: Option<FieldElement>)
    requires
        a.wf(),
    ensures
        r.is_none() == (a@ == 0),
        r matches Some(inv) ==> inv.wf() && (a@ * inv@) % modulus() == 1,
{
    let v = Option::<Fr>::from(Fr::from_raw([a.l0, a.l1, a.l2, a.l3]).invert())?;
    let t = v.to_bytes();
    Some(FieldElement {
        l0: u64::from_le_bytes(t[0..8].try_into().unwrap()),
        l1: u64::from_le_bytes(t[8..16].try_into().unwrap()),
        l2: u64::from_le_bytes(t[16..24].try_into().unwrap()),
        l3: u64::from_le_bytes(t[24..32].try_into().unwrap()),
    })
}

/// `Field::random` of `Fr`, on the generator `rand::thread_rng`. Of the
/// element nothing is claimed but that it is canonical.
#[verifier::external_body]
pub(crate) fn field_random() -> (r: FieldElement)
    ensures
        r.wf(),
{
    let v = Fr::random(rand::thread_rng());
    let t = v.to_bytes();
    FieldElement {
        l0: u64::from_le_bytes(t[0..8].try_into().unwrap()),
        l1: u64::from_le_bytes(t[8..16].try_into().unwrap()),
        l2: u64::from_le_bytes(t[16..24].try_into().unwrap()),
        l3: u64::from_le_bytes(t[24..32].try_into().unwrap()),
    }
}

/// `PrimeField::ROOT_OF_UNITY` of `Fr`: the multiplicative generator `7` of
/// the field to the power of the odd part of the field order less one, which
/// is the number `root_of_unity_value()`.
#[verifier::external_body]
pub(crate) fn field_root_of_unity() -> (r: FieldElement)
    ensures
        r.wf(),
        r@ == root_of_unity_value(),
{
    let v = Fr::ROOT_OF_UNITY;
    let t = v.to_bytes();
    FieldElement {
        l0: u64::from_le_bytes(t[0..8].try_into().unwrap()),
        l1: u64::from_le_bytes(t[8..16].try_into().unwrap()),
        l2: u64::from_le_bytes(t[16..24].try_into().unwrap()),
        l3: u64::from_le_bytes(t[24..32].try_into().unwrap()),
    }
}

} // verus!
