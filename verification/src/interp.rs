//! Reconstruction by Lagrange interpolation at zero, in exact rational
//! arithmetic: recovers the constant term of the polynomial through the
//! given points.

use vstd::prelude::*;
use crate::arith::{divides, lemma_divides_self};
use crate::bignum::{big_clone, big_eq, big_from_u64, big_neg, big_sub, big_value, big_values};
use crate::error::SssError;
use crate::rational::Rational;

verus! {

/// Unreduced product of two fraction pairs.
pub open spec fn rat_mul(a: (int, int), b: (int, int)) -> (int, int) {
    (a.0 * b.0, a.1 * b.1)
}

/// Unreduced sum of two fraction pairs.
pub open spec fn rat_add(a: (int, int), b: (int, int)) -> (int, int) {
    (a.0 * b.1 + a.1 * b.0, a.1 * b.1)
}

/// All entries pairwise different.
pub open spec fn distinct_values(xs: Seq<int>) -> bool {
    forall|i: int, j: int| #![trigger xs[i], xs[j]]
        0 <= i < xs.len() && 0 <= j < xs.len() && i != j ==> xs[i] != xs[j]
}

/// The Lagrange basis factor for point `i`, over points `0..j`, evaluated at
/// zero: the product of `-x_l / (x_i - x_l)` for `l != i`.
pub open spec fn lagrange_basis(xs: Seq<int>, i: int, j: int) -> (int, int)
    decreases j,
{
    if j <= 0 {
        (1, 1)
    } else if j - 1 == i {
        lagrange_basis(xs, i, j - 1)
    } else {
        rat_mul(lagrange_basis(xs, i, j - 1), (-xs[j - 1], xs[i] - xs[j - 1]))
    }
}

/// The interpolated value at zero over the first `m` points, as an unreduced
/// fraction: the sum of `y_i * basis_i`.
pub open spec fn lagrange_sum(xs: Seq<int>, ys: Seq<int>, m: int) -> (int, int)
    decreases m,
{
    if m <= 0 {
        (0, 1)
    } else {
        rat_add(
            lagrange_sum(xs, ys, m - 1),
            rat_mul((ys[m - 1], 1), lagrange_basis(xs, m - 1, xs.len() as int)),
        )
    }
}

/// The interpolated fraction for the first `m` of the given points.
pub open spec fn lagrange_of(
    x: Seq<num_bigint::BigInt>,
    y: Seq<num_bigint::BigInt>,
    m: int,
) -> (int, int) {
    lagrange_sum(big_values(x).take(m), big_values(y).take(m), m)
}

pub proof fn lemma_basis_den_nonzero(xs: Seq<int>, i: int, j: int)
    requires
        0 <= i < xs.len(),
        j <= xs.len(),
        distinct_values(xs),
    ensures
        lagrange_basis(xs, i, j).1 != 0,
    decreases j,
{
    if j > 0 {
        lemma_basis_den_nonzero(xs, i, j - 1);
        if j - 1 != i {
            let prev = lagrange_basis(xs, i, j - 1).1;
            let e = xs[i] - xs[j - 1];
            assert(prev * e != 0) by (nonlinear_arith)
                requires
                    prev != 0,
                    e != 0,
            ;
        }
    }
}

pub proof fn lemma_sum_den_nonzero(xs: Seq<int>, ys: Seq<int>, m: int)
    requires
        m <= xs.len(),
        distinct_values(xs),
    ensures
        lagrange_sum(xs, ys, m).1 != 0,
    decreases m,
{
    if m > 0 {
        lemma_sum_den_nonzero(xs, ys, m - 1);
        lemma_basis_den_nonzero(xs, (m - 1) as int, xs.len() as int);
        let a1 = lagrange_sum(xs, ys, m - 1).1;
        let b1 = 1 * lagrange_basis(xs, m - 1, xs.len() as int).1;
        assert(a1 * b1 != 0) by (nonlinear_arith)
            requires
                a1 != 0,
                b1 != 0,
        ;
    }
}

/// Cross-multiplication equivalence is a congruence for products.
proof fn lemma_represents_mul(
    an: int,
    ad: int,
    a0: int,
    a1: int,
    bn: int,
    bd: int,
    b0: int,
    b1: int,
    rn: int,
    rd: int,
)
    requires
        an * a1 == a0 * ad,
        bn * b1 == b0 * bd,
        rn * (ad * bd) == (an * bn) * rd,
        ad != 0,
        bd != 0,
    ensures
        rn * (a1 * b1) == (a0 * b0) * rd,
{
    assert(rn * (a1 * b1) * (ad * bd) == (rn * (ad * bd)) * (a1 * b1)) by (nonlinear_arith);
    assert((rn * (ad * bd)) * (a1 * b1) == ((an * bn) * rd) * (a1 * b1)) by (nonlinear_arith)
        requires
            rn * (ad * bd) == (an * bn) * rd,
    ;
    assert(((an * bn) * rd) * (a1 * b1) == ((an * a1) * (bn * b1)) * rd) by (nonlinear_arith);
    assert((an * a1) * (bn * b1) == (a0 * ad) * (b0 * bd)) by (nonlinear_arith)
        requires
            an * a1 == a0 * ad,
            bn * b1 == b0 * bd,
    ;
    assert(((a0 * ad) * (b0 * bd)) * rd == (a0 * b0) * rd * (ad * bd)) by (nonlinear_arith);
    assert(rn * (a1 * b1) == (a0 * b0) * rd) by (nonlinear_arith)
        requires
            rn * (a1 * b1) * (ad * bd) == (a0 * b0) * rd * (ad * bd),
            ad != 0,
            bd != 0,
    ;
}

/// Cross-multiplication equivalence is a congruence for sums.
proof fn lemma_represents_add(
    an: int,
    ad: int,
    a0: int,
    a1: int,
    bn: int,
    bd: int,
    b0: int,
    b1: int,
    rn: int,
    rd: int,
)
    requires
        an * a1 == a0 * ad,
        bn * b1 == b0 * bd,
        rn * (ad * bd) == (an * bd + ad * bn) * rd,
        ad != 0,
        bd != 0,
    ensures
        rn * (a1 * b1) == (a0 * b1 + a1 * b0) * rd,
{
    assert(rn * (a1 * b1) * (ad * bd) == (rn * (ad * bd)) * (a1 * b1)) by (nonlinear_arith);
    assert((rn * (ad * bd)) * (a1 * b1) == ((an * bd + ad * bn) * rd) * (a1 * b1))
        by (nonlinear_arith)
        requires
            rn * (ad * bd) == (an * bd + ad * bn) * rd,
    ;
    assert(((an * bd + ad * bn) * rd) * (a1 * b1) == ((an * bd + ad * bn) * (a1 * b1)) * rd)
        by (nonlinear_arith);
    assert((an * bd + ad * bn) * (a1 * b1) == an * bd * (a1 * b1) + ad * bn * (a1 * b1))
        by (nonlinear_arith);
    assert(an * bd * (a1 * b1) == (an * a1) * (bd * b1)) by (nonlinear_arith);
    assert(ad * bn * (a1 * b1) == (bn * b1) * (ad * a1)) by (nonlinear_arith);
    assert((an * a1) * (bd * b1) + (bn * b1) * (ad * a1) == (a0 * ad) * (bd * b1) + (b0 * bd) * (ad
        * a1)) by (nonlinear_arith)
        requires
            an * a1 == a0 * ad,
            bn * b1 == b0 * bd,
    ;
    assert((a0 * b1 + a1 * b0) * (ad * bd) == a0 * b1 * (ad * bd) + a1 * b0 * (ad * bd))
        by (nonlinear_arith);
    assert((a0 * ad) * (bd * b1) == a0 * b1 * (ad * bd)) by (nonlinear_arith);
    assert((b0 * bd) * (ad * a1) == a1 * b0 * (ad * bd)) by (nonlinear_arith);
    assert(((a0 * b1 + a1 * b0) * (ad * bd)) * rd == (a0 * b1 + a1 * b0) * rd * (ad * bd))
        by (nonlinear_arith);
    assert(rn * (a1 * b1) == (a0 * b1 + a1 * b0) * rd) by (nonlinear_arith)
        requires
            rn * (a1 * b1) * (ad * bd) == (a0 * b1 + a1 * b0) * rd * (ad * bd),
            ad != 0,
            bd != 0,
    ;
}

/// Threshold correctness for a threshold of two: interpolating two distinct
/// points of the line `a0 + a1 * x` at zero yields exactly `a0`, the secret
/// in the constant term.  With the contract of `generate_secret`, which
/// returns the integer the interpolated fraction reduces to, reconstruction
/// from any two such points recovers `a0`.
pub proof fn lemma_line_reconstruction(xs: Seq<int>, ys: Seq<int>, a0: int, a1: int)
    requires
        xs.len() == 2,
        ys.len() == 2,
        xs[0] != xs[1],
        ys[0] == a0 + a1 * xs[0],
        ys[1] == a0 + a1 * xs[1],
    ensures
        a0 * lagrange_sum(xs, ys, 2).1 == lagrange_sum(xs, ys, 2).0,
        lagrange_sum(xs, ys, 2).1 != 0,
{
    let x0 = xs[0];
    let x1 = xs[1];
    let b0 = lagrange_basis(xs, 0, 2);
    let b1 = lagrange_basis(xs, 1, 2);
    assert(lagrange_basis(xs, 0, 0) == (1int, 1int));
    assert(lagrange_basis(xs, 0, 1) == lagrange_basis(xs, 0, 0));
    assert(b0 == rat_mul(lagrange_basis(xs, 0, 1), (-x1, x0 - x1)));
    assert(b0.0 == 1 * (-x1) && b0.1 == 1 * (x0 - x1));
    assert(lagrange_basis(xs, 1, 0) == (1int, 1int));
    assert(lagrange_basis(xs, 1, 1) == rat_mul(lagrange_basis(xs, 1, 0), (-x0, x1 - x0)));
    assert(b1 == lagrange_basis(xs, 1, 1));
    assert(b1.0 == 1 * (-x0) && b1.1 == 1 * (x1 - x0));
    let s0 = lagrange_sum(xs, ys, 0);
    let s1 = lagrange_sum(xs, ys, 1);
    let s2 = lagrange_sum(xs, ys, 2);
    assert(s0 == (0int, 1int));
    assert(s1 == rat_add(s0, rat_mul((ys[0], 1), b0)));
    assert(s1.0 == 0 * (1 * b0.1) + 1 * (ys[0] * b0.0));
    assert(s1.1 == 1 * (1 * b0.1));
    assert(s2 == rat_add(s1, rat_mul((ys[1], 1), b1)));
    assert(s2.0 == s1.0 * (1 * b1.1) + s1.1 * (ys[1] * b1.0));
    assert(s2.1 == s1.1 * (1 * b1.1));
    assert(s1.0 == ys[0] * (-x1)) by (nonlinear_arith)
        requires
            s1.0 == 0 * (1 * b0.1) + 1 * (ys[0] * b0.0),
            b0.0 == 1 * (-x1),
    ;
    assert(s1.1 == x0 - x1);
    assert(1 * b1.1 == x1 - x0);
    assert(ys[1] * b1.0 == ys[1] * (-x0)) by (nonlinear_arith)
        requires
            b1.0 == -x0,
    ;
    assert(s2.0 == (ys[0] * (-x1)) * (x1 - x0) + (x0 - x1) * (ys[1] * (-x0)));
    assert(s2.1 == (x0 - x1) * (x1 - x0));
    assert(a0 * s2.1 == s2.0) by (nonlinear_arith)
        requires
            s2.1 == (x0 - x1) * (x1 - x0),
            s2.0 == (ys[0] * (-x1)) * (x1 - x0) + (x0 - x1) * (ys[1] * (-x0)),
            ys[0] == a0 + a1 * x0,
            ys[1] == a0 + a1 * x1,
    ;
    assert(s2.1 != 0) by (nonlinear_arith)
        requires
            s2.1 == (x0 - x1) * (x1 - x0),
            x0 != x1,
    ;
}

/// Recovers the constant term of the polynomial through the first `m` of the
/// given points, by Lagrange interpolation at zero in exact rational
/// arithmetic.
///
/// Returns the integer the interpolated fraction reduces to; when the
/// fraction is not an integer the points are not all on one polynomial of
/// degree below `m`, and `InconsistentShares` is reported.
pub fn generate_secret(x: &[num_bigint::BigInt], y: &[num_bigint::BigInt], m: usize) -> (r: Result<
    num_bigint::BigInt,
    SssError,
>)
    requires
        m <= x@.len(),
        m <= y@.len(),
        distinct_values(big_values(x@).take(m as int)),
    ensures
        r is Ok ==> big_value(r->Ok_0) * lagrange_of(x@, y@, m as int).1 == lagrange_of(
            x@,
            y@,
            m as int,
        ).0,
        r is Ok <==> exists|q: int| #[trigger] (q * lagrange_of(x@, y@, m as int).1)
            == lagrange_of(x@, y@, m as int).0,
        r is Err ==> r == Err::<num_bigint::BigInt, SssError>(SssError::InconsistentShares),
{
    let ans = lagrange_rational(x, y, m);
    let ghost xs = big_values(x@).take(m as int);
    let ghost ys = big_values(y@).take(m as int);
    let ghost lag = lagrange_sum(xs, ys, m as int);
    proof {
        assert(lag == lagrange_of(x@, y@, m as int));
    }
    let one = big_from_u64(1);
    if big_eq(&ans.den, &one) {
        proof {
            assert(big_value(ans.num) * lag.1 == lag.0 * 1);
            assert((big_value(ans.num) * lag.1) == lag.0);
            assert(exists|q: int| #[trigger] (q * lag.1) == lag.0);
        }
        Ok(ans.num)
    } else {
        proof {
            lemma_sum_den_nonzero(xs, ys, m as int);
            let vn = big_value(ans.num);
            let vd = big_value(ans.den);
            assert forall|q: int| #[trigger] (q * lag.1) != lag.0 by {
                if q * lag.1 == lag.0 {
                    assert(vn * lag.1 == (q * vd) * lag.1) by (nonlinear_arith)
                        requires
                            vn * lag.1 == lag.0 * vd,
                            lag.0 == q * lag.1,
                    ;
                    assert(vn == q * vd) by (nonlinear_arith)
                        requires
                            vn * lag.1 == (q * vd) * lag.1,
                            lag.1 != 0,
                    ;
                    assert(divides(vd, vn));
                    lemma_divides_self(vd);
                    assert(vd <= 1);
                    assert(false);
                }
            }
        }
        Err(SssError::InconsistentShares)
    }
}

/// The interpolated fraction for the first `m` points, as a reduced
/// rational.
pub fn lagrange_rational(x: &[num_bigint::BigInt], y: &[num_bigint::BigInt], m: usize) -> (r:
    Rational)
    requires
        m <= x@.len(),
        m <= y@.len(),
        distinct_values(big_values(x@).take(m as int)),
    ensures
        r.wf(),
        big_value(r.num) * lagrange_of(x@, y@, m as int).1 == lagrange_of(x@, y@, m as int).0
            * big_value(r.den),
{
    let ghost xs = big_values(x@).take(m as int);
    let ghost ys = big_values(y@).take(m as int);
    let mut ans = Rational::from_int(big_from_u64(0));
    let mut i: usize = 0;
    assert(big_value(ans.num) * lagrange_sum(xs, ys, 0).1 == lagrange_sum(xs, ys, 0).0
        * big_value(ans.den));
    while i < m
        invariant
            m <= x@.len(),
            m <= y@.len(),
            xs == big_values(x@).take(m as int),
            ys == big_values(y@).take(m as int),
            distinct_values(xs),
            0 <= i <= m,
            ans.wf(),
            big_value(ans.num) * lagrange_sum(xs, ys, i as int).1 == lagrange_sum(
                xs,
                ys,
                i as int,
            ).0 * big_value(ans.den),
        decreases m - i,
    {
        let ghost ii = i as int;
        let mut l = Rational::from_int(big_clone(&y[i]));
        proof {
            assert(ys[ii] == big_value(y@[ii]));
            assert(big_value(l.num) * (1 * lagrange_basis(xs, ii, 0).1) == (ys[ii] * lagrange_basis(
                xs,
                ii,
                0,
            ).0) * big_value(l.den));
        }
        let mut j: usize = 0;
        while j < m
            invariant
                m <= x@.len(),
                m <= y@.len(),
                xs == big_values(x@).take(m as int),
                ys == big_values(y@).take(m as int),
                distinct_values(xs),
                0 <= i < m,
                ii == i as int,
                0 <= j <= m,
                l.wf(),
                big_value(l.num) * (1 * lagrange_basis(xs, ii, j as int).1) == (ys[ii]
                    * lagrange_basis(xs, ii, j as int).0) * big_value(l.den),
            decreases m - j,
        {
            let ghost jj = j as int;
            if i != j {
                proof {
                    assert(xs[ii] == big_value(x@[ii]));
                    assert(xs[jj] == big_value(x@[jj]));
                    assert(xs[ii] != xs[jj]);
                }
                let temp = Rational::from_ratio(big_neg(&x[j]), big_sub(&x[i], &x[j]));
                let next = l.mul(&temp);
                proof {
                    let bj = lagrange_basis(xs, ii, jj);
                    let bj1 = lagrange_basis(xs, ii, jj + 1);
                    assert(bj1 == rat_mul(bj, (-xs[jj], xs[ii] - xs[jj])));
                    lemma_basis_den_nonzero(xs, ii, jj);
                    lemma_represents_mul(
                        big_value(l.num),
                        big_value(l.den),
                        ys[ii] * bj.0,
                        1 * bj.1,
                        big_value(temp.num),
                        big_value(temp.den),
                        -xs[jj],
                        xs[ii] - xs[jj],
                        big_value(next.num),
                        big_value(next.den),
                    );
                    assert(1 * bj1.1 == (1 * bj.1) * (xs[ii] - xs[jj])) by (nonlinear_arith)
                        requires
                            bj1.1 == bj.1 * (xs[ii] - xs[jj]),
                    ;
                    assert(ys[ii] * bj1.0 == (ys[ii] * bj.0) * (-xs[jj])) by (nonlinear_arith)
                        requires
                            bj1.0 == bj.0 * (-xs[jj]),
                    ;
                }
                l = next;
            } else {
                proof {
                    assert(lagrange_basis(xs, ii, jj + 1) == lagrange_basis(xs, ii, jj));
                }
            }
            j = j + 1;
        }
        let next_ans = ans.add(&l);
        proof {
            let s_i = lagrange_sum(xs, ys, ii);
            let s_i1 = lagrange_sum(xs, ys, ii + 1);
            let t = rat_mul((ys[ii], 1), lagrange_basis(xs, ii, xs.len() as int));
            assert(s_i1 == rat_add(s_i, t));
            assert(xs.len() == m);
            lemma_sum_den_nonzero(xs, ys, ii);
            lemma_basis_den_nonzero(xs, ii, xs.len() as int);
            assert(t.1 == 1 * lagrange_basis(xs, ii, m as int).1);
            assert(t.0 == ys[ii] * lagrange_basis(xs, ii, m as int).0);
            lemma_represents_add(
                big_value(ans.num),
                big_value(ans.den),
                s_i.0,
                s_i.1,
                big_value(l.num),
                big_value(l.den),
                t.0,
                t.1,
                big_value(next_ans.num),
                big_value(next_ans.den),
            );
        }
        ans = next_ans;
        i = i + 1;
    }
    ans
}

} // verus!
