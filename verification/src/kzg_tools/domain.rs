//! The multiplicative subgroup of order `2^28` and its generator.

use crate::kzg_tools::evaluation::Evaluation;
use crate::kzg_tools::fft::{is_power_of_two, is_primitive_root};
use crate::kzg_tools::field::{field_mul, field_root_of_unity, root_of_unity_value};
use crate::kzg_tools::modular::{
    congruent, lemma_canonical_reduced, lemma_congruent_mul, lemma_congruent_pow, lemma_reduce,
    modulus, power_mod,
};
use crate::kzg_tools::polynomial::Polynomial;
use vstd::arithmetic::power::{lemma_pow1, lemma_pow_adds, lemma_pow_multiplies, pow};
use vstd::arithmetic::power2::{
    lemma2_to64, lemma_pow2_adds, lemma_pow2_pos, lemma_pow2_strictly_increases, lemma_pow2_unfold,
    pow2,
};
use vstd::prelude::*;

verus! {

/// The least exponent from `k` on, and at most 28, for which `2^k` reaches
/// `len`; 28 where none does.
pub open spec fn domain_exponent_from(len: int, k: nat) -> nat
    decreases 28 - k,
{
    if k >= 28 || pow2(k) >= len {
        k
    } else {
        domain_exponent_from(len, k + 1)
    }
}

/// The exponent of the least power of two that is at least `len`, as far as
/// the field has a subgroup of that order.
pub open spec fn domain_exponent(len: int) -> nat {
    domain_exponent_from(len, 0)
}

/// The root of unity for polynomials with `len` coefficients: the generator
/// of the subgroup of order `2^28`, squared down to the order
/// `2^domain_exponent(len)`.
pub open spec fn domain_root(len: int) -> int {
    power_mod(root_of_unity_value(), pow2((28 - domain_exponent(len)) as nat))
}

/// If `v` is `g` to the power `2^t`, the square of `v` is `g` to the power
/// `2^(t + 1)`.
proof fn lemma_square_step(g: int, t: nat, v: int, v2: int)
    requires
        congruent(pow(g, pow2(t)), v),
        (v * v) % modulus() == v2,
    ensures
        congruent(pow(g, pow2(t + 1)), v2),
{
    let x = pow(g, pow2(t));
    lemma_pow2_unfold(t + 1);
    lemma_pow_adds(g, pow2(t), pow2(t));
    lemma_congruent_mul(x, v, x, v);
    lemma_reduce(v * v);
}

/// The generator squared 27 times is minus one: its order is `2^28`.
pub proof fn lemma_root_of_unity_order()
    ensures
        congruent(pow(root_of_unity_value(), pow2(27)), -1),
{
    let r = modulus();
    let v0 = root_of_unity_value();
    lemma_pow1(v0);
    assert(pow2(0) == 1) by {
        lemma2_to64();
    }
    let v1 = 0x148e611dd90e580c5258ffea8d1604d408d6377ca2f0e806998550aa8f948006int;
    assert((v0 * v0) % r == v1);
    lemma_square_step(v0, 0, v0, v1);
    let v2 = 0x1dba8b5bdd64ef6ce29a9039aca3c0e524395c43b9227b96c75090cc6cc7ec97int;
    assert((v1 * v1) % r == v2);
    lemma_square_step(v0, 1, v1, v2);
    let v3 = 0x0d94d63997367c97a8ed16c17adaae39262b9af83acb9e003f94c217303dd160int;
    assert((v2 * v2) % r == v3);
    lemma_square_step(v0, 2, v2, v3);
    let v4 = 0x1951441010b2b95a6e47a6075066a50a036f5ba978c050f2821df86636c0facbint;
    assert((v3 * v3) % r == v4);
    lemma_square_step(v0, 3, v3, v4);
    let v5 = 0x1283ba6f4b7b1a76ba2008fe823128bea4adb9269cbfd7c41c223be65bc60863int;
    assert((v4 * v4) % r == v5);
    lemma_square_step(v0, 4, v4, v5);
    let v6 = 0x18c95f1ae6514e11a1b30fd7923947c5ffcec5347f16e91b4dd654168326bedeint;
    assert((v5 * v5) % r == v6);
    lemma_square_step(v0, 5, v5, v6);
    let v7 = 0x032750f8f3c2493d0828c7285d0258e1bdcaa463f4442a52747b5c96639659bbint;
    assert((v6 * v6) % r == v7);
    lemma_square_step(v0, 6, v6, v7);
    let v8 = 0x2a14464f1ff42de3856402b62520e670745e39fada049d5b2f0e1e3182673378int;
    assert((v7 * v7) % r == v8);
    lemma_square_step(v0, 7, v7, v8);
    let v9 = 0x0cf1526aaafac6bacbb67d11a4077806b123f767e4b0883d14cc0193568fc082int;
    assert((v8 * v8) % r == v9);
    lemma_square_step(v0, 8, v8, v9);
    let v10 = 0x0f60c8fe0414cb9379b2d39267945f6bd60d06a05216231b26a9fcf88ddbfebeint;
    assert((v9 * v9) % r == v10);
    lemma_square_step(v0, 9, v9, v10);
    let v11 = 0x304cd1e79cfa5b0f054e981a27ed7706e7ea6b06a7f266ef8db819c179c2c3eaint;
    assert((v10 * v10) % r == v11);
    lemma_square_step(v0, 10, v10, v11);
    let v12 = 0x09d2cc4b5782fbe923e49ace3f647643a5f5d8fb89091c3ababd582133584b29int;
    assert((v11 * v11) % r == v12);
    lemma_square_step(v0, 11, v11, v12);
    let v13 = 0x2b7ddfe4383c8d806530b94d3120ce6fcb511871e4d44a65f0acd0b96a8a942eint;
    assert((v12 * v12) % r == v13);
    lemma_square_step(v0, 12, v12, v13);
    let v14 = 0x2337acd19f40bf2b2aa212849e9a0c07d626d9ca335d73a09119dbe6eaab3cacint;
    assert((v13 * v13) % r == v14);
    lemma_square_step(v0, 13, v13, v14);
    let v15 = 0x10e3d295c1599ff535a1bb49f23d81aa03bd0ed25881f9ed12b179af67f67ae1int;
    assert((v14 * v14) % r == v15);
    lemma_square_step(v0, 14, v14, v15);
    let v16 = 0x2f6122bbf1d35fdaa9953f60087a423238aa810773efee2a251aa6161f2e6ee6int;
    assert((v15 * v15) % r == v16);
    lemma_square_step(v0, 15, v15, v16);
    let v17 = 0x14c60185e75885d674db4b3f7d4a5694fa6c01aa0f53557b060bc04a4172705fint;
    assert((v16 * v16) % r == v17);
    lemma_square_step(v0, 16, v16, v17);
    let v18 = 0x2ad9021ed07c42ab19f77c5cf2cbd2deb135ea330f1b1573bd08d99309c4bb7dint;
    assert((v17 * v17) % r == v18);
    lemma_square_step(v0, 17, v17, v18);
    let v19 = 0x0dd30b9ad8c173555d2a33029bc807ac165b61281e9054a173af7ff4e4fc88fcint;
    assert((v18 * v18) % r == v19);
    lemma_square_step(v0, 18, v18, v19);
    let v20 = 0x1058a83d529be585820b96ff0a13f2dbd8675a9e5dd2336a6692cc1e5a526c81int;
    assert((v19 * v19) % r == v20);
    lemma_square_step(v0, 19, v19, v20);
    let v21 = 0x2822ef9d2d155c2b49f7a010aeec0dae3df9cff80535c8d08c9e954b942e6d6bint;
    assert((v20 * v20) % r == v21);
    lemma_square_step(v0, 20, v20, v21);
    let v22 = 0x1c4c3a258629905ef6036a4037c3aa6ae18d1d2452d64bd2684cfa8ede70fdc7int;
    assert((v21 * v21) % r == v22);
    lemma_square_step(v0, 21, v21, v22);
    let v23 = 0x09c532c6306b93d29678200d47c0b2a99c18d51b838eeb1d3eed4c533bb512d0int;
    assert((v22 * v22) % r == v23);
    lemma_square_step(v0, 22, v22, v23);
    let v24 = 0x21082ca216cbbf4e1c6e4f4594dd508c996dfbe1174efb98b11509c6e306460bint;
    assert((v23 * v23) % r == v24);
    lemma_square_step(v0, 23, v23, v24);
    let v25 = 0x2b337de1c8c14f22ec9b9e2f96afef3652627366f8170a0a948dad4ac1bd5e80int;
    assert((v24 * v24) % r == v25);
    lemma_square_step(v0, 24, v24, v25);
    let v26 = 0x30644e72e131a029048b6e193fd841045cea24f6fd736bec231204708f703636int;
    assert((v25 * v25) % r == v26);
    lemma_square_step(v0, 25, v25, v26);
    let v27 = 0x30644e72e131a029b85045b68181585d2833e84879b9709143e1f593f0000000int;
    assert((v26 * v26) % r == v27);
    lemma_square_step(v0, 26, v26, v27);
    assert(v27 == r - 1);
    assert((r - 1) % r == (-1) % r) by {
        vstd::arithmetic::div_mod::lemma_mod_multiples_vanish(1, -1, r);
    }
}

/// The exponent is at most 28 and minimal; up to `2^28` the power of two
/// reaches `len`.
pub proof fn lemma_domain_exponent(len: int, k: nat)
    requires
        k <= 28,
        k > 0 ==> pow2((k - 1) as nat) < len,
    ensures
        k <= domain_exponent_from(len, k) <= 28,
        len <= pow2(28) ==> pow2(domain_exponent_from(len, k)) >= len,
        domain_exponent_from(len, k) > 0 ==> pow2((domain_exponent_from(len, k) - 1) as nat) < len,
    decreases 28 - k,
{
    if !(k >= 28 || pow2(k) >= len) {
        lemma_domain_exponent(len, k + 1);
    }
}

/// A power of two is two to some power.
proof fn lemma_power_of_two_has_exponent(n: int) -> (j: nat)
    requires
        is_power_of_two(n),
    ensures
        n == pow2(j),
    decreases n,
{
    if n == 1 {
        lemma2_to64();
        0
    } else {
        let j = lemma_power_of_two_has_exponent(n / 2);
        lemma_pow2_unfold(j + 1);
        j + 1
    }
}

/// For a power of two up to `2^28` the domain has exactly that order.
pub proof fn lemma_domain_of_power_of_two(len: int)
    requires
        is_power_of_two(len),
        len <= pow2(28),
    ensures
        pow2(domain_exponent(len)) == len,
{
    let k = domain_exponent(len);
    let j = lemma_power_of_two_has_exponent(len);
    lemma_domain_exponent(len, 0);
    if j < k {
        if j < k - 1 {
            lemma_pow2_strictly_increases(j, (k - 1) as nat);
        }
    } else if j > k {
        lemma_pow2_strictly_increases(k, j);
    }
}

/// The domain root is a primitive root of unity of the order of the domain.
pub proof fn lemma_domain_root_primitive(len: int)
    ensures
        is_primitive_root(domain_root(len), pow2(domain_exponent(len)) as int),
{
    let k = domain_exponent(len);
    lemma_domain_exponent(len, 0);
    let g = root_of_unity_value();
    let n = pow2(k) as int;
    lemma_pow2_pos(k);
    if n >= 2 {
        if k == 0 {
            lemma2_to64();
        }
        let down = pow2((28 - k) as nat);
        let half = pow2((k - 1) as nat);
        lemma_pow2_unfold(k);
        assert(n / 2 == half);
        // (g^down)^half == g^(down * half) == g^(2^27)
        lemma_reduce(pow(g, down));
        lemma_congruent_pow(domain_root(len), pow(g, down), half);
        lemma_pow_multiplies(g, down, half);
        lemma_pow2_adds((28 - k) as nat, (k - 1) as nat);
        assert((28 - k) as nat + (k - 1) as nat == 27);
        lemma_root_of_unity_order();
    }
}

impl Polynomial {
    /// The root of unity for the evaluation domain of the polynomial: a
    /// primitive root of the least order `2^k` that is at least the number
    /// of coefficients, or of the order `2^28` where there are more.
    pub fn rou(&self) -> (r: Evaluation)
        ensures
            r.wf(),
            r@ == domain_root(self@.len() as int),
            is_primitive_root(r@, pow2(domain_exponent(self@.len() as int)) as int),
            is_power_of_two(self@.len() as int) && self@.len() <= pow2(28) ==> is_primitive_root(
                r@,
                self@.len() as int,
            ),
    {
        let len = self.coeff.len();
        let mut counter: usize = 0;
        let mut size: usize = 1;
        proof {
            lemma2_to64();
        }
        while counter < 28 && size < len
            invariant
                counter <= 28,
                size == pow2(counter as nat),
                size <= 0x1000_0000,
                len == self.coeff.len(),
                domain_exponent_from(len as int, counter as nat) == domain_exponent(len as int),
            decreases 28 - counter,
        {
            proof {
                lemma_pow2_unfold((counter + 1) as nat);
                lemma_pow2_strictly_increases(counter as nat, 28);
                lemma2_to64();
                if counter + 1 < 28 {
                    lemma_pow2_strictly_increases((counter + 1) as nat, 28);
                }
            }
            size = size * 2;
            counter += 1;
        }
        let ghost g = root_of_unity_value();
        let mut rou = field_root_of_unity();
        let squarings = 28 - counter;
        let mut t: usize = 0;
        proof {
            lemma_pow1(g);
        }
        while t < squarings
            invariant
                t <= squarings,
                rou.wf(),
                g == root_of_unity_value(),
                congruent(rou@, pow(g, pow2(t as nat))),
            decreases squarings - t,
        {
            proof {
                lemma_reduce(rou@ * rou@);
                lemma_square_step(g, t as nat, rou@, (rou@ * rou@) % modulus());
            }
            rou = field_mul(&rou, &rou);
            t += 1;
        }
        proof {
            lemma_canonical_reduced(rou@, pow(g, pow2(squarings as nat)));
            lemma_domain_root_primitive(len as int);
            if is_power_of_two(len as int) && len <= pow2(28) {
                lemma_domain_of_power_of_two(len as int);
            }
        }
        Evaluation::new(rou)
    }
}

} // verus!
