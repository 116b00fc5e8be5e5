//! Modular arithmetic for field-mode reconstruction: Euclidean reduction of
//! signed values and modular inversion by the extended Euclidean algorithm.

use vstd::prelude::*;
use vstd::arithmetic::div_mod::{lemma_fundamental_div_mod, lemma_fundamental_div_mod_converse,
    lemma_mod_bound, lemma_mul_mod_noop_right, lemma_small_mod};
use crate::arith::{coprime, divides, lemma_common_divisor_step, lemma_divides_add_multiple,
    lemma_divides_self, lemma_divides_zero};
use crate::bignum::{big_abs, big_clone, big_div, big_eq, big_from_u64, big_is_zero, big_lt,
    big_mul, big_rem, big_sub, big_value};

verus! {

/// The Euclidean remainder of a possibly negative value: always in
/// `[0, m)`.
pub fn big_mod_euclid(a: &num_bigint::BigInt, m: &num_bigint::BigInt) -> (r: num_bigint::BigInt)
    requires
        big_value(*m) > 0,
    ensures
        big_value(r) == big_value(*a) % big_value(*m),
        0 <= big_value(r) < big_value(*m),
{
    let ghost va = big_value(*a);
    let ghost vm = big_value(*m);
    let zero = big_from_u64(0);
    if !big_lt(a, &zero) {
        let r = big_rem(a, m);
        proof {
            lemma_mod_bound(va, vm);
        }
        r
    } else {
        let ab = big_abs(a);
        let s = big_rem(&ab, m);
        proof {
            lemma_mod_bound(-va, vm);
            lemma_fundamental_div_mod(-va, vm);
        }
        let ghost q = (-va) / vm;
        let ghost vs = big_value(s);
        if big_is_zero(&s) {
            proof {
                // -va == vm * q, so va == (-q) * vm + 0.
                assert(va == (-q) * vm + 0) by (nonlinear_arith)
                    requires
                        -va == vm * q + 0,
                ;
                lemma_fundamental_div_mod_converse(va, vm, -q, 0);
            }
            s
        } else {
            let r = big_sub(m, &s);
            proof {
                // -va == vm * q + vs, so va == (-q - 1) * vm + (vm - vs).
                assert(va == (-q - 1) * vm + (vm - vs)) by (nonlinear_arith)
                    requires
                        -va == vm * q + vs,
                ;
                lemma_fundamental_div_mod_converse(va, vm, -q - 1, vm - vs);
            }
            r
        }
    }
}

/// The inverse of `a` modulo `m`, by the extended Euclidean algorithm:
/// `Some(r)` with `a * r = 1 (mod m)` exactly when `a` and `m` have no
/// common divisor above one.
pub fn mod_inverse(a: &num_bigint::BigInt, m: &num_bigint::BigInt) -> (r: Option<
    num_bigint::BigInt,
>)
    requires
        0 <= big_value(*a) < big_value(*m),
        big_value(*m) > 1,
    ensures
        r is Some <==> coprime(big_value(*a), big_value(*m)),
        r is Some ==> 0 <= big_value(r->0) < big_value(*m) && (big_value(*a) * big_value(r->0))
            % big_value(*m) == 1,
{
    let ghost va = big_value(*a);
    let ghost vm = big_value(*m);
    let mut r0 = big_clone(m);
    let mut r1 = big_clone(a);
    let mut t0 = big_from_u64(0);
    let mut t1 = big_from_u64(1);
    proof {
        lemma_divides_zero(vm);
        assert(vm - 0 * va == 1 * vm) by (nonlinear_arith);
        assert(divides(vm, big_value(r0) - big_value(t0) * va));
        assert(va - 1 * va == 0 * vm) by (nonlinear_arith);
        assert(divides(vm, big_value(r1) - big_value(t1) * va));
    }
    while !big_is_zero(&r1)
        invariant
            vm > 1,
            big_value(*m) == vm,
            big_value(*a) == va,
            big_value(r0) > 0,
            big_value(r1) >= 0,
            divides(vm, big_value(r0) - big_value(t0) * va),
            divides(vm, big_value(r1) - big_value(t1) * va),
            forall|d: int| #![trigger divides(d, big_value(r0)), divides(d, big_value(r1))]
                (divides(d, big_value(r0)) && divides(d, big_value(r1))) <==> (divides(d, vm)
                    && divides(d, va)),
        decreases big_value(r1),
    {
        let ghost vr0 = big_value(r0);
        let ghost vr1 = big_value(r1);
        let ghost vt0 = big_value(t0);
        let ghost vt1 = big_value(t1);
        let q = big_div(&r0, &r1);
        let rem = big_rem(&r0, &r1);
        let t2 = big_sub(&t0, &big_mul(&q, &t1));
        proof {
            let vq = big_value(q);
            lemma_fundamental_div_mod(vr0, vr1);
            lemma_mod_bound(vr0, vr1);
            assert(big_value(rem) == vr0 + (-vq) * vr1) by (nonlinear_arith)
                requires
                    vr0 == vr1 * vq + big_value(rem),
            ;
            // The congruence r = t * a (mod m) is linear, so it survives the
            // Euclidean step.
            assert(big_value(rem) - big_value(t2) * va == (vr0 - vt0 * va) + (-vq) * (vr1 - vt1
                * va)) by (nonlinear_arith)
                requires
                    big_value(rem) == vr0 + (-vq) * vr1,
                    big_value(t2) == vt0 - vq * vt1,
            ;
            lemma_divides_add_multiple(vm, vr0 - vt0 * va, vr1 - vt1 * va, -vq);
            assert forall|d: int|
                (divides(d, big_value(r1)) && divides(d, big_value(rem))) <==> (divides(d, vm)
                    && divides(d, va)) by {
                lemma_common_divisor_step(d, vr0, vr1);
                assert((divides(d, big_value(r0)) && divides(d, big_value(r1))) <==> (divides(
                    d,
                    vm,
                ) && divides(d, va)));
                assert((divides(d, big_value(r1)) && divides(d, big_value(rem))) <==> (divides(
                    d,
                    big_value(r0),
                ) && divides(d, big_value(r1))));
            }
        }
        r0 = r1;
        r1 = rem;
        t0 = t1;
        t1 = t2;
    }
    let one = big_from_u64(1);
    if big_eq(&r0, &one) {
        let inv = big_mod_euclid(&t0, m);
        proof {
            let vt0 = big_value(t0);
            // 1 - t0 * a is a multiple of m, so t0 * a = 1 (mod m).
            let kk = choose|k: int| 1 - vt0 * va == #[trigger] (k * vm);
            assert(vt0 * va == vm * (-kk) + 1) by (nonlinear_arith)
                requires
                    1 - vt0 * va == kk * vm,
            ;
            lemma_small_mod(1, vm as nat);
            vstd::arithmetic::div_mod::lemma_mod_multiples_vanish(-kk, 1, vm);
            assert((vt0 * va) % vm == 1);
            lemma_mul_mod_noop_right(va, vt0, vm);
            assert((va * (vt0 % vm)) % vm == (va * vt0) % vm);
            assert(va * vt0 == vt0 * va) by (nonlinear_arith);
            // Every common divisor of the inputs divides the gcd, one.
            assert forall|d: int| divides(d, va) && divides(d, vm) implies d <= 1 by {
                lemma_divides_zero(d);
                assert(divides(d, big_value(r0)) && divides(d, big_value(r1)));
                let k = choose|k: int| 1 == #[trigger] (k * d);
                assert(d <= 1) by (nonlinear_arith)
                    requires
                        1 == k * d,
                ;
            }
        }
        Some(inv)
    } else {
        proof {
            let g = big_value(r0);
            lemma_divides_self(g);
            lemma_divides_zero(g);
            assert(divides(g, va) && divides(g, vm));
            assert(g > 1);
            assert(!coprime(va, vm));
        }
        None
    }
}

} // verus!
