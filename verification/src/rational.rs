//! Exact rational arithmetic on unbounded integers, always reduced to lowest
//! terms with a positive denominator.  Used by exact-mode reconstruction.

use vstd::prelude::*;
use crate::arith::{coprime, divides, lemma_common_divisor_step, lemma_divides_add_multiple,
    lemma_divides_le, lemma_divides_neg, lemma_divides_self, lemma_divides_zero};
use crate::bignum::{big_abs, big_add, big_clone, big_div_exact, big_from_u64, big_is_zero,
    big_lt, big_mul, big_neg, big_rem, big_value};
use crate::error::SssError;

verus! {

/// An exact fraction of unbounded integers.
pub struct Rational {
    pub num: num_bigint::BigInt,
    pub den: num_bigint::BigInt,
}

impl Rational {
    /// Lowest terms, positive denominator: what every constructor
    /// establishes and every operation preserves.
    pub open spec fn wf(self) -> bool {
        &&& big_value(self.den) > 0
        &&& coprime(big_value(self.num), big_value(self.den))
    }

    /// This fraction equals `n / d` (by cross multiplication; exact when
    /// `d != 0`).
    pub open spec fn represents(self, n: int, d: int) -> bool {
        big_value(self.num) * d == n * big_value(self.den)
    }
}

/// Everything is coprime to one.
pub proof fn lemma_coprime_one(n: int)
    ensures
        coprime(n, 1),
{
    assert forall|d: int| divides(d, n) && divides(d, 1) implies d <= 1 by {
        let k = choose|k: int| 1 == #[trigger] (k * d);
        assert(d <= 1) by (nonlinear_arith)
            requires
                1 == k * d,
        ;
    }
}

/// The greatest common divisor, by the Euclidean algorithm on non-negative
/// inputs: the result divides both inputs, and every common divisor of the
/// inputs divides it.
fn gcd_nonneg(a0: &num_bigint::BigInt, b0: &num_bigint::BigInt) -> (g: num_bigint::BigInt)
    requires
        big_value(*a0) >= 0,
        big_value(*b0) >= 0,
    ensures
        big_value(g) >= 0,
        divides(big_value(g), big_value(*a0)),
        divides(big_value(g), big_value(*b0)),
        big_value(*a0) > 0 || big_value(*b0) > 0 ==> big_value(g) > 0,
        forall|d: int| #![trigger divides(d, big_value(*a0)), divides(d, big_value(*b0))]
            divides(d, big_value(*a0)) && divides(d, big_value(*b0)) ==> divides(
                d,
                big_value(g),
            ),
{
    let ghost va0 = big_value(*a0);
    let ghost vb0 = big_value(*b0);
    let mut a = big_clone(a0);
    let mut b = big_clone(b0);
    while !big_is_zero(&b)
        invariant
            big_value(a) >= 0,
            big_value(b) >= 0,
            (big_value(a) > 0 || big_value(b) > 0) <==> (va0 > 0 || vb0 > 0),
            forall|d: int| #![trigger divides(d, big_value(a)), divides(d, big_value(b))]
                (divides(d, big_value(a)) && divides(d, big_value(b))) <==> (divides(d, va0)
                    && divides(d, vb0)),
        decreases big_value(b),
    {
        let ghost va = big_value(a);
        let ghost vb = big_value(b);
        let r = big_rem(&a, &b);
        proof {
            assert forall|d: int|
                (divides(d, big_value(b)) && divides(d, big_value(r))) <==> (divides(d, va0)
                    && divides(d, vb0)) by {
                lemma_common_divisor_step(d, va, vb);
                assert((divides(d, big_value(a)) && divides(d, big_value(b))) <==> (divides(
                    d,
                    va0,
                ) && divides(d, vb0)));
                assert((divides(d, big_value(b)) && divides(d, big_value(r))) <==> (divides(
                    d,
                    big_value(a),
                ) && divides(d, big_value(b))));
            }
            vstd::arithmetic::div_mod::lemma_mod_bound(va, vb);
        }
        a = b;
        b = r;
    }
    proof {
        let va = big_value(a);
        lemma_divides_self(va);
        lemma_divides_zero(va);
        assert(divides(va, va0) && divides(va, vb0));
        assert forall|d: int| divides(d, va0) && divides(d, vb0) implies divides(
            d,
            big_value(a),
        ) by {
            lemma_divides_zero(d);
        }
    }
    a
}

/// Builds the reduced, positive-denominator fraction equal to `num / den`.
fn make_reduced(num: num_bigint::BigInt, den: num_bigint::BigInt) -> (r: Rational)
    requires
        big_value(den) != 0,
    ensures
        r.wf(),
        r.represents(big_value(num), big_value(den)),
{
    let ghost n0 = big_value(num);
    let ghost d0 = big_value(den);
    let zero = big_from_u64(0);
    let (n, d) = if big_lt(&den, &zero) {
        (big_neg(&num), big_neg(&den))
    } else {
        (num, den)
    };
    let ghost vn = big_value(n);
    let ghost vd = big_value(d);
    let na = big_abs(&n);
    let g = gcd_nonneg(&na, &d);
    let ghost vg = big_value(g);
    proof {
        // g divides |n| and d; so it divides n.
        let kk = choose|k: int| big_value(na) == #[trigger] (k * vg);
        if vn >= 0 {
            assert(vn == kk * vg);
        } else {
            assert(vn == (-kk) * vg) by (nonlinear_arith)
                requires
                    -vn == kk * vg,
            ;
        }
        assert(divides(vg, vn));
    }
    let rn = big_div_exact(&n, &g);
    let rd = big_div_exact(&d, &g);
    let ghost vrn = big_value(rn);
    let ghost vrd = big_value(rd);
    proof {
        // vn == vrn * vg, vd == vrd * vg, vd > 0, vg > 0.
        assert(vrd > 0) by (nonlinear_arith)
            requires
                vd == vrd * vg,
                vd > 0,
                vg > 0,
        ;
        // Value preserved: vrn * vd == vn * vrd.
        assert(vrn * vd == vn * vrd) by (nonlinear_arith)
            requires
                vn == vrn * vg,
                vd == vrd * vg,
        ;
        // Cross equality against the given, possibly negated, pair.
        if d0 < 0 {
            assert(vn == -n0 && vd == -d0);
            assert(vrn * d0 == n0 * vrd) by (nonlinear_arith)
                requires
                    vrn * vd == vn * vrd,
                    vn == -n0,
                    vd == -d0,
            ;
        }
        // Lowest terms: a common divisor c > 1 of (vrn, vrd) would put
        // c * vg, a divisor of both inputs larger than vg, below vg.
        assert forall|c: int| divides(c, vrn) && divides(c, vrd) implies c <= 1 by {
            if c > 1 {
                let k1 = choose|k: int| vrn == #[trigger] (k * c);
                let k2 = choose|k: int| vrd == #[trigger] (k * c);
                assert(vn == k1 * (c * vg) && vd == k2 * (c * vg)) by (nonlinear_arith)
                    requires
                        vn == vrn * vg,
                        vd == vrd * vg,
                        vrn == k1 * c,
                        vrd == k2 * c,
                ;
                assert(divides(c * vg, vn));
                assert(divides(c * vg, vd));
                if vn >= 0 {
                    assert(divides(c * vg, big_value(na)));
                } else {
                    lemma_divides_neg(c * vg, vn);
                    assert(divides(c * vg, big_value(na)));
                }
                assert(divides(c * vg, vg));
                assert(c * vg > vg && c * vg > 0) by (nonlinear_arith)
                    requires
                        c > 1,
                        vg > 0,
                ;
                lemma_divides_le(c * vg, vg);
                assert(false);
            }
        }
    }
    Rational { num: rn, den: rd }
}

impl Rational {
    /// The integer `n` as a fraction.
    pub fn from_int(n: num_bigint::BigInt) -> (r: Rational)
        ensures
            r.wf(),
            big_value(r.num) == big_value(n),
            big_value(r.den) == 1,
    {
        proof {
            lemma_coprime_one(big_value(n));
        }
        Rational { num: n, den: big_from_u64(1) }
    }

    /// Builds `n / d` in lowest terms for a denominator known not to be zero.
    pub fn from_ratio(n: num_bigint::BigInt, d: num_bigint::BigInt) -> (r: Rational)
        requires
            big_value(d) != 0,
        ensures
            r.wf(),
            r.represents(big_value(n), big_value(d)),
    {
        make_reduced(n, d)
    }

    /// Builds `n / d` in lowest terms; a zero denominator is refused with
    /// `DivisionByZero` before any value is formed.
    pub fn new(n: num_bigint::BigInt, d: num_bigint::BigInt) -> (r: Result<Rational, SssError>)
        ensures
            big_value(d) == 0 ==> r == Err::<Rational, SssError>(SssError::DivisionByZero),
            big_value(d) != 0 ==> r is Ok && r->Ok_0.wf() && r->Ok_0.represents(
                big_value(n),
                big_value(d),
            ),
    {
        if big_is_zero(&d) {
            Err(SssError::DivisionByZero)
        } else {
            Ok(make_reduced(n, d))
        }
    }

    /// Exact sum, reduced to lowest terms: the result is well formed and
    /// equals `(n1*d2 + d1*n2) / (d1*d2)`.
    pub fn add(&self, other: &Rational) -> (r: Rational)
        requires
            self.wf(),
            other.wf(),
        ensures
            r.wf(),
            r.represents(
                big_value(self.num) * big_value(other.den) + big_value(self.den) * big_value(
                    other.num,
                ),
                big_value(self.den) * big_value(other.den),
            ),
    {
        let n = big_add(&big_mul(&self.num, &other.den), &big_mul(&self.den, &other.num));
        let d = big_mul(&self.den, &other.den);
        proof {
            assert(big_value(self.den) * big_value(other.den) > 0) by (nonlinear_arith)
                requires
                    big_value(self.den) > 0,
                    big_value(other.den) > 0,
            ;
        }
        make_reduced(n, d)
    }

    /// Exact product, reduced to lowest terms: the result is well formed and
    /// equals `(n1*n2) / (d1*d2)`.
    pub fn mul(&self, other: &Rational) -> (r: Rational)
        requires
            self.wf(),
            other.wf(),
        ensures
            r.wf(),
            r.represents(
                big_value(self.num) * big_value(other.num),
                big_value(self.den) * big_value(other.den),
            ),
    {
        let n = big_mul(&self.num, &other.num);
        let d = big_mul(&self.den, &other.den);
        proof {
            assert(big_value(self.den) * big_value(other.den) > 0) by (nonlinear_arith)
                requires
                    big_value(self.den) > 0,
                    big_value(other.den) > 0,
            ;
        }
        make_reduced(n, d)
    }
}

} // verus!
