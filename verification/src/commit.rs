//! Verifiable-secret-sharing commitments: `g^a mod p` for each polynomial
//! coefficient, by square-and-multiply, reduced every step.

use vstd::prelude::*;
use vstd::arithmetic::div_mod::{lemma_div_pos_is_pos, lemma_fundamental_div_mod, lemma_mod_bound,
    lemma_mul_mod_noop_left, lemma_mul_mod_noop_right};
use vstd::arithmetic::power::{lemma_pow0, lemma_pow1, lemma_pow_adds, lemma_pow_mod_noop,
    lemma_pow_multiplies, pow};
use crate::bignum::{big_clone, big_div, big_from_i128, big_from_u64, big_is_zero, big_mul,
    big_rem, big_to_i128, big_value};

verus! {

/// The scheme-wide commitment generator.
pub const G: i128 = 3;

/// The scheme-wide commitment modulus.  Distinct from any per-secret prime.
pub const P: i128 = 170141183460469231731687303715884105727;

/// One square-and-multiply step keeps the tracked product congruent.
proof fn lemma_mod_exp_step(res: int, b: int, e: int, m: int, target: int)
    requires
        m > 1,
        e > 0,
        (res * pow(b, e as nat)) % m == target,
    ensures
        e % 2 == 1 ==> (((res * b) % m) * pow((b * b) % m, (e / 2) as nat)) % m == target,
        e % 2 == 0 ==> (res * pow((b * b) % m, (e / 2) as nat)) % m == target,
{
    let q = e / 2;
    let r = e % 2;
    lemma_fundamental_div_mod(e, 2);
    lemma_mod_bound(e, 2);
    lemma_div_pos_is_pos(e, 2);
    lemma_pow1(b);
    lemma_pow_adds(b, 1, 1);
    assert(pow(b, 2) == b * b);
    lemma_pow_multiplies(b, 2, q as nat);
    assert((2 * q) as nat == (2 as nat) * (q as nat));
    assert(pow(b, (2 * q) as nat) == pow(b * b, q as nat));
    lemma_pow_adds(b, (2 * q) as nat, r as nat);
    assert(pow(b, e as nat) == pow(b, (2 * q) as nat) * pow(b, r as nat));
    lemma_pow_mod_noop(b * b, q as nat, m);
    let pq = pow(b * b, q as nat);
    let pqm = pow((b * b) % m, q as nat);
    assert(pqm % m == pq % m);
    if r == 1 {
        assert(pow(b, r as nat) == b);
        assert(pow(b, e as nat) == pq * b);
        lemma_mul_mod_noop_left(res * b, pqm, m);
        assert((((res * b) % m) * pqm) % m == ((res * b) * pqm) % m);
        lemma_mul_mod_noop_right(res * b, pqm, m);
        lemma_mul_mod_noop_right(res * b, pq, m);
        assert(((res * b) * pqm) % m == ((res * b) * (pqm % m)) % m);
        assert(((res * b) * (pq % m)) % m == ((res * b) * pq) % m);
        assert((res * b) * pq == res * (pq * b)) by (nonlinear_arith);
        assert((((res * b) % m) * pqm) % m == (res * pow(b, e as nat)) % m);
    } else {
        assert(pow(b, r as nat) == 1) by {
            lemma_pow0(b);
        }
        assert(pow(b, e as nat) == pq * 1);
        lemma_mul_mod_noop_right(res, pqm, m);
        lemma_mul_mod_noop_right(res, pq, m);
        assert((res * pqm) % m == (res * (pqm % m)) % m);
        assert((res * (pq % m)) % m == (res * pq) % m);
        assert((res * pqm) % m == (res * pow(b, e as nat)) % m);
    }
}

/// `base^exp mod modulus` over unbounded integers, by square-and-multiply
/// with every intermediate reduced below the modulus.
fn mod_exp_big(
    base: &num_bigint::BigInt,
    exp: &num_bigint::BigInt,
    modulus: &num_bigint::BigInt,
) -> (r: num_bigint::BigInt)
    requires
        big_value(*base) >= 0,
        big_value(*exp) >= 0,
        big_value(*modulus) > 1,
    ensures
        big_value(r) == pow(big_value(*base), big_value(*exp) as nat) % big_value(*modulus),
        0 <= big_value(r) < big_value(*modulus),
{
    let ghost vb0 = big_value(*base);
    let ghost ve0 = big_value(*exp);
    let ghost vm = big_value(*modulus);
    let ghost target = pow(vb0, ve0 as nat) % vm;
    let two = big_from_u64(2);
    let mut result = big_from_u64(1);
    let mut b = big_rem(base, modulus);
    let mut e = big_clone(exp);
    proof {
        lemma_mod_bound(vb0, vm);
        lemma_pow_mod_noop(vb0, ve0 as nat, vm);
        lemma_mul_mod_noop_right(1, pow(big_value(b), ve0 as nat), vm);
        assert((1 * pow(big_value(b), ve0 as nat)) % vm == pow(big_value(b), ve0 as nat) % vm);
        assert(pow(big_value(b), ve0 as nat) % vm == target);
    }
    while !big_is_zero(&e)
        invariant
            vm > 1,
            big_value(two) == 2,
            0 <= big_value(result) < vm,
            0 <= big_value(b) < vm,
            0 <= big_value(e),
            (big_value(result) * pow(big_value(b), big_value(e) as nat)) % vm == target,
            big_value(*modulus) == vm,
        decreases big_value(e),
    {
        let ghost vres = big_value(result);
        let ghost vb = big_value(b);
        let ghost ve = big_value(e);
        proof {
            lemma_mod_exp_step(vres, vb, ve, vm, target);
            lemma_mod_bound(ve, 2);
            lemma_div_pos_is_pos(ve, 2);
            vstd::arithmetic::div_mod::lemma_div_is_strictly_smaller(ve, 2);
            lemma_mod_bound(vres * vb, vm);
            lemma_mod_bound(vb * vb, vm);
        }
        let parity = big_rem(&e, &two);
        if !big_is_zero(&parity) {
            result = big_rem(&big_mul(&result, &b), modulus);
        }
        e = big_div(&e, &two);
        b = big_rem(&big_mul(&b, &b), modulus);
    }
    proof {
        lemma_pow0(big_value(b));
        assert(pow(big_value(b), 0) == 1);
        assert(big_value(result) * 1 == big_value(result));
        vstd::arithmetic::div_mod::lemma_small_mod(big_value(result) as nat, vm as nat);
    }
    result
}

/// `base^exp mod modulus` for machine-word arguments.
///
/// The value it returns is exactly the one direct exponentiation followed by
/// one reduction would give; intermediates are carried as unbounded integers,
/// so no bound on the modulus is needed beyond fitting its type.
pub fn mod_exp(base: i128, exp: i128, modulus: i128) -> (r: i128)
    requires
        base >= 0,
        exp >= 0,
        modulus > 1,
    ensures
        r as int == pow(base as int, exp as nat) % (modulus as int),
        0 <= r < modulus,
{
    let bb = big_from_i128(base);
    let be = big_from_i128(exp);
    let bm = big_from_i128(modulus);
    let br = mod_exp_big(&bb, &be, &bm);
    big_to_i128(&br)
}

/// One commitment per coefficient: `generator^coefficient mod fixed_prime`.
///
/// Each entry equals direct exponentiation reduced once, so a verifier can
/// recompute and compare.
pub fn commit(coefficients: &[i128], generator: i128, fixed_prime: i128) -> (r: Vec<i128>)
    requires
        generator >= 0,
        fixed_prime > 1,
        forall|i: int| 0 <= i < coefficients@.len() ==> #[trigger] coefficients@[i] >= 0,
    ensures
        r@.len() == coefficients@.len(),
        forall|i: int| 0 <= i < r@.len() ==> #[trigger] r@[i] as int == pow(
            generator as int,
            coefficients@[i] as nat,
        ) % (fixed_prime as int),
{
    let mut out: Vec<i128> = Vec::new();
    let mut i: usize = 0;
    while i < coefficients.len()
        invariant
            generator >= 0,
            fixed_prime > 1,
            forall|j: int| 0 <= j < coefficients@.len() ==> #[trigger] coefficients@[j] >= 0,
            0 <= i <= coefficients@.len(),
            out@.len() == i,
            forall|j: int| 0 <= j < i ==> #[trigger] out@[j] as int == pow(
                generator as int,
                coefficients@[j] as nat,
            ) % (fixed_prime as int),
        decreases coefficients@.len() - i,
    {
        let c = mod_exp(generator, coefficients[i], fixed_prime);
        out.push(c);
        i = i + 1;
    }
    out
}

/// Commitments to a polynomial's coefficients under the scheme-wide
/// generator and modulus.
pub fn generate_commitments(poly: &Vec<i128>) -> (r: Vec<i128>)
    requires
        forall|i: int| 0 <= i < poly@.len() ==> #[trigger] poly@[i] >= 0,
    ensures
        r@.len() == poly@.len(),
        forall|i: int| 0 <= i < r@.len() ==> #[trigger] r@[i] as int == pow(
            G as int,
            poly@[i] as nat,
        ) % (P as int),
{
    commit(poly.as_slice(), G, P)
}

} // verus!
