//! Divisibility over mathematical integers: the toolkit behind reduction to
//! lowest terms and modular inversion.

use vstd::prelude::*;
use vstd::arithmetic::div_mod::lemma_fundamental_div_mod;

verus! {

/// `d` divides `a`.
pub open spec fn divides(d: int, a: int) -> bool {
    exists|k: int| a == #[trigger] (k * d)
}

/// `a` and `b` have no common divisor above one.
pub open spec fn coprime(a: int, b: int) -> bool {
    forall|d: int| #![trigger divides(d, a), divides(d, b)]
        divides(d, a) && divides(d, b) ==> d <= 1
}

pub proof fn lemma_divides_self(d: int)
    ensures
        divides(d, d),
{
    assert(d == 1 * d);
}

pub proof fn lemma_divides_zero(d: int)
    ensures
        divides(d, 0),
{
    assert(0int == 0 * d);
}

pub proof fn lemma_divides_neg(d: int, a: int)
    requires
        divides(d, a),
    ensures
        divides(d, -a),
{
    let k = choose|k: int| a == #[trigger] (k * d);
    assert(-a == (-k) * d) by (nonlinear_arith)
        requires
            a == k * d,
    ;
}

/// A positive divisor of a positive number is no larger than it.
pub proof fn lemma_divides_le(d: int, a: int)
    requires
        divides(d, a),
        d > 0,
        a > 0,
    ensures
        d <= a,
{
    let k = choose|k: int| a == #[trigger] (k * d);
    assert(d <= a) by (nonlinear_arith)
        requires
            a == k * d,
            d > 0,
            a > 0,
    ;
}

/// A common divisor of `x` and `y` divides `x + k * y`.
pub proof fn lemma_divides_add_multiple(d: int, x: int, y: int, k: int)
    requires
        divides(d, x),
        divides(d, y),
    ensures
        divides(d, x + k * y),
{
    let m = choose|m: int| x == #[trigger] (m * d);
    let n = choose|n: int| y == #[trigger] (n * d);
    assert(x + k * y == (m + k * n) * d) by (nonlinear_arith)
        requires
            x == m * d,
            y == n * d,
    ;
}

/// Everything divides into one only trivially.
pub proof fn lemma_one_coprime(n: int)
    ensures
        coprime(1, n),
{
    assert forall|d: int| divides(d, 1) && divides(d, n) implies d <= 1 by {
        let k = choose|k: int| 1 == #[trigger] (k * d);
        assert(d <= 1) by (nonlinear_arith)
            requires
                1 == k * d,
        ;
    }
}

/// Common divisors ignore the sign of what they divide.
pub proof fn lemma_coprime_neg(a: int, b: int)
    requires
        coprime(a, b),
    ensures
        coprime(-a, b),
{
    assert forall|d: int| divides(d, -a) && divides(d, b) implies d <= 1 by {
        lemma_divides_neg(d, -a);
        assert(divides(d, a) && divides(d, b));
    }
}

/// The greatest common divisor, by the Euclidean recursion.
pub open spec fn gcd_spec(a: nat, b: nat) -> nat
    decreases b,
{
    if b == 0 {
        a
    } else {
        gcd_spec(b, (a % b) as nat)
    }
}

/// The gcd divides both arguments, is positive when the second is, and is a
/// linear combination of the two (Bezout).
pub proof fn lemma_bezout(a: nat, b: nat)
    ensures
        divides(gcd_spec(a, b) as int, a as int),
        divides(gcd_spec(a, b) as int, b as int),
        b > 0 ==> gcd_spec(a, b) > 0,
        exists|s: int, t: int| #![trigger s * (a as int), t * (b as int)]
            s * (a as int) + t * (b as int) == gcd_spec(a, b) as int,
    decreases b,
{
    let g = gcd_spec(a, b) as int;
    if b == 0 {
        lemma_divides_self(a as int);
        lemma_divides_zero(a as int);
        assert(1 * (a as int) + 0 * (b as int) == g) by (nonlinear_arith)
            requires
                g == a as int,
        ;
    } else {
        let r = ((a as int) % (b as int)) as nat;
        lemma_bezout(b, r);
        lemma_fundamental_div_mod(a as int, b as int);
        let q = (a as int) / (b as int);
        // g divides b and a % b, so it divides a.
        lemma_divides_add_multiple(g, r as int, b as int, q);
        assert(a as int == r as int + q * (b as int)) by (nonlinear_arith)
            requires
                a as int == (b as int) * q + r as int,
        ;
        // Shift the combination one Euclidean step back.
        let (s0, t0) = choose|s: int, t: int| #![trigger s * (b as int), t * (r as int)]
            s * (b as int) + t * (r as int) == g;
        assert(t0 * (a as int) + (s0 - t0 * q) * (b as int) == g) by (nonlinear_arith)
            requires
                s0 * (b as int) + t0 * (r as int) == g,
                a as int == (b as int) * q + r as int,
        ;
    }
}

/// Gauss's lemma: what is coprime to a factor and divides a product divides
/// the other factor.
pub proof fn lemma_gauss(a: int, b: int, c: int)
    requires
        a >= 0,
        b > 0,
        coprime(a, b),
        divides(b, a * c),
    ensures
        divides(b, c),
{
    lemma_bezout(a as nat, b as nat);
    let g = gcd_spec(a as nat, b as nat) as int;
    assert(g <= 1);
    assert(g == 1);
    let (s, t) = choose|s: int, t: int| #![trigger s * a, t * b] s * a + t * b == 1;
    let k = choose|k: int| a * c == #[trigger] (k * b);
    assert(c == (s * k + t * c) * b) by (nonlinear_arith)
        requires
            s * a + t * b == 1,
            a * c == k * b,
    ;
}

/// A fraction in lowest terms with a positive denominator is unique: two
/// reduced forms of the same ratio `l0 / l1` coincide.
pub proof fn lemma_reduced_unique(n1: int, d1: int, n2: int, d2: int, l0: int, l1: int)
    requires
        l1 != 0,
        d1 > 0,
        d2 > 0,
        coprime(n1, d1),
        coprime(n2, d2),
        n1 * l1 == l0 * d1,
        n2 * l1 == l0 * d2,
    ensures
        d1 == d2,
        n1 == n2,
{
    assert(n1 * d2 == n2 * d1) by (nonlinear_arith)
        requires
            n1 * l1 == l0 * d1,
            n2 * l1 == l0 * d2,
            l1 != 0,
    ;
    lemma_divides_both_ways(n1, d1, n2, d2);
    lemma_divides_both_ways(n2, d2, n1, d1);
    lemma_divides_le(d1, d2);
    lemma_divides_le(d2, d1);
    assert(d1 == d2);
    assert(n1 == n2) by (nonlinear_arith)
        requires
            n1 * d2 == n2 * d1,
            d1 == d2,
            d1 > 0,
    ;
}

/// Helper for the uniqueness argument: `d1` divides `d2`.
proof fn lemma_divides_both_ways(n1: int, d1: int, n2: int, d2: int)
    requires
        d1 > 0,
        d2 > 0,
        coprime(n1, d1),
        n1 * d2 == n2 * d1,
    ensures
        divides(d1, d2),
{
    let na = if n1 >= 0 { n1 } else { -n1 };
    if n1 < 0 {
        lemma_coprime_neg(n1, d1);
    }
    assert(divides(d1, n1 * d2)) by {
        assert(n1 * d2 == n2 * d1);
    }
    if n1 >= 0 {
        lemma_gauss(na, d1, d2);
    } else {
        let k = choose|k: int| n1 * d2 == #[trigger] (k * d1);
        assert(na * d2 == (-k) * d1) by (nonlinear_arith)
            requires
                n1 * d2 == k * d1,
                na == -n1,
        ;
        assert(divides(d1, na * d2));
        lemma_gauss(na, d1, d2);
    }
}

/// One Euclidean step keeps the set of common divisors: the common divisors
/// of `(b, a % b)` are those of `(a, b)`.
pub proof fn lemma_common_divisor_step(d: int, a: int, b: int)
    requires
        a >= 0,
        b > 0,
    ensures
        divides(d, b) && divides(d, a % b) <==> divides(d, a) && divides(d, b),
{
    lemma_fundamental_div_mod(a, b);
    let q = a / b;
    let r = a % b;
    assert(a == b * q + r);
    if divides(d, b) && divides(d, r) {
        lemma_divides_add_multiple(d, r, b, q);
        assert(a == r + q * b) by (nonlinear_arith)
            requires
                a == b * q + r,
        ;
    }
    if divides(d, a) && divides(d, b) {
        lemma_divides_add_multiple(d, a, b, -q);
        assert(r == a + (-q) * b) by (nonlinear_arith)
            requires
                a == b * q + r,
        ;
    }
}

} // verus!
