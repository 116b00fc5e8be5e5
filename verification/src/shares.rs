//! The external share container: per-index entries carrying a numeric base
//! and a digit string, decoded into raw points `(x, y)` with `x` the entry's
//! index.

use vstd::prelude::*;
use vstd::arithmetic::div_mod::{lemma_mod_bound, lemma_mul_mod_noop_left, lemma_mul_mod_noop_right,
    lemma_small_mod};
use crate::arith::{coprime, divides, lemma_common_divisor_step, lemma_reduced_unique};
use crate::bignum::{big_clone, big_from_u64, big_mul, big_rem, big_value, big_values};
use crate::codec::{convert_to_decimal, text_value, valid_digits};
use crate::error::SssError;
use crate::field::{big_mod_euclid, mod_inverse};
use crate::interp::{distinct_values, generate_secret, lagrange_of, lagrange_rational};

verus! {

/// One entry of the pre-parsed share container: the share's index `1..=n`,
/// the numeric base of its value, and the value as a digit string.
pub struct ShareEntry {
    pub index: usize,
    pub base: u32,
    pub value: String,
}

/// A decoded share: the point `(x, y)` together with the base and digit
/// string it came from.
pub struct Share {
    pub base: u32,
    pub value: String,
    pub x: num_bigint::BigInt,
    pub y: num_bigint::BigInt,
}

/// No two entries claim the same index (the container is a mapping).
pub open spec fn unique_indices(entries: Seq<ShareEntry>) -> bool {
    forall|j1: int, j2: int| #![trigger entries[j1], entries[j2]]
        0 <= j1 < entries.len() && 0 <= j2 < entries.len() && j1 != j2 ==> entries[j1].index
            != entries[j2].index
}

/// Some entry carries this index.
pub open spec fn has_index(entries: Seq<ShareEntry>, i: int) -> bool {
    exists|j: int| 0 <= j < entries.len() && (#[trigger] entries[j]).index == i
}

/// The entry carrying this index (unique when `unique_indices` holds).
pub open spec fn entry_with(entries: Seq<ShareEntry>, i: int) -> ShareEntry {
    entries[choose|j: int| 0 <= j < entries.len() && (#[trigger] entries[j]).index == i]
}

/// An entry that decodes: a base in `2..=36` and a non-empty digit string
/// valid in it.
pub open spec fn good_entry(e: ShareEntry) -> bool {
    &&& 2 <= e.base <= 36
    &&& e.value@.len() > 0
    &&& valid_digits(e.value@, e.base as int)
}

/// Index `i` contributes a point.
pub open spec fn share_included(entries: Seq<ShareEntry>, i: int) -> bool {
    has_index(entries, i) && good_entry(entry_with(entries, i))
}

/// The points the container denotes, in index order `1..=n`: indices that
/// are missing or do not decode are skipped.
pub open spec fn parsed_points(entries: Seq<ShareEntry>, n: int) -> Seq<(int, int)>
    decreases n,
{
    if n <= 0 {
        Seq::empty()
    } else {
        let prev = parsed_points(entries, n - 1);
        if share_included(entries, n) {
            prev.push(
                (n, text_value(entry_with(entries, n).value@, entry_with(entries, n).base as int)),
            )
        } else {
            prev
        }
    }
}

/// The `x` values of a share sequence.
pub open spec fn share_xs(shares: Seq<Share>) -> Seq<int> {
    Seq::new(shares.len(), |i: int| big_value(shares[i].x))
}

/// The `y` values of a share sequence.
pub open spec fn share_ys(shares: Seq<Share>) -> Seq<int> {
    Seq::new(shares.len(), |i: int| big_value(shares[i].y))
}

/// Decodes the container's entries for indices `1..=n` into shares, in index
/// order.  A missing index is skipped, as is an entry whose base is outside
/// `2..=36` or whose value is not a valid digit string in its base; every
/// decoded share carries exactly the point the model `parsed_points` names.
/// Callers must compare the resulting count with their threshold themselves.
pub fn parse_shares(entries: &Vec<ShareEntry>, n: usize) -> (r: Vec<Share>)
    requires
        unique_indices(entries@),
    ensures
        r@.len() == parsed_points(entries@, n as int).len(),
        forall|k: int| 0 <= k < r@.len() ==> big_value(#[trigger] r@[k].x) == parsed_points(
            entries@,
            n as int,
        )[k].0,
        forall|k: int| 0 <= k < r@.len() ==> big_value(#[trigger] r@[k].y) == parsed_points(
            entries@,
            n as int,
        )[k].1,
        forall|k1: int, k2: int| #![trigger r@[k1].x, r@[k2].x]
            0 <= k1 < k2 < r@.len() ==> big_value(r@[k1].x) < big_value(r@[k2].x),
        forall|k: int| 0 <= k < r@.len() ==> 1 <= big_value(#[trigger] r@[k].x) <= n as int,
        forall|k: int|
            0 <= k < r@.len() ==> share_included(entries@, big_value(#[trigger] r@[k].x))
                && r@[k].base == entry_with(entries@, big_value(r@[k].x)).base && r@[k].value@
                == entry_with(entries@, big_value(r@[k].x)).value@,
{
    let mut out: Vec<Share> = Vec::new();
    let mut idx: usize = 0;
    while idx < n
        invariant
            unique_indices(entries@),
            0 <= idx <= n,
            out@.len() == parsed_points(entries@, idx as int).len(),
            forall|k: int| 0 <= k < out@.len() ==> big_value(#[trigger] out@[k].x)
                == parsed_points(entries@, idx as int)[k].0,
            forall|k: int| 0 <= k < out@.len() ==> big_value(#[trigger] out@[k].y)
                == parsed_points(entries@, idx as int)[k].1,
            forall|k1: int, k2: int| #![trigger out@[k1].x, out@[k2].x]
                0 <= k1 < k2 < out@.len() ==> big_value(out@[k1].x) < big_value(out@[k2].x),
            forall|k: int| 0 <= k < out@.len() ==> 1 <= big_value(#[trigger] out@[k].x) <= idx,
            forall|k: int|
                0 <= k < out@.len() ==> share_included(entries@, big_value(#[trigger] out@[k].x))
                    && out@[k].base == entry_with(entries@, big_value(out@[k].x)).base
                    && out@[k].value@ == entry_with(entries@, big_value(out@[k].x)).value@,
        decreases n - idx,
    {
        let i = idx + 1;
        let mut j: usize = 0;
        let mut found: bool = false;
        let mut fj: usize = 0;
        while j < entries.len()
            invariant
                found ==> 0 <= fj < j <= entries@.len() && entries@[fj as int].index == i,
                !found ==> (forall|jj: int| 0 <= jj < j ==> (#[trigger] entries@[jj]).index != i),
                0 <= j <= entries@.len(),
            decreases entries@.len() - j,
        {
            if !found && entries[j].index == i {
                found = true;
                fj = j;
            }
            j = j + 1;
        }
        proof {
            if found {
                assert(has_index(entries@, i as int));
                let j0 = choose|jx: int|
                    0 <= jx < entries@.len() && (#[trigger] entries@[jx]).index == i as int;
                assert(entries@[j0].index == entries@[fj as int].index);
                assert(j0 == fj as int);
                assert(entry_with(entries@, i as int) == entries@[fj as int]);
            } else {
                assert(!has_index(entries@, i as int));
            }
        }
        if found {
            let e = &entries[fj];
            if 2 <= e.base && e.base <= 36 {
                match convert_to_decimal(e.value.as_str(), e.base) {
                    Ok(y) => {
                        let share = Share {
                            base: e.base,
                            value: e.value.clone(),
                            x: big_from_u64(i as u64),
                            y,
                        };
                        out.push(share);
                        proof {
                            assert(share_included(entries@, i as int));
                            assert forall|k2: int| 0 <= k2 < out@.len() implies share_included(
                                entries@,
                                big_value((#[trigger] out@[k2]).x),
                            ) && out@[k2].base == entry_with(
                                entries@,
                                big_value(out@[k2].x),
                            ).base && out@[k2].value@ == entry_with(
                                entries@,
                                big_value(out@[k2].x),
                            ).value@ by {
                                if k2 == out@.len() - 1 {
                                    assert(out@[k2] == share);
                                    assert(big_value(share.x) == i as int);
                                    assert(share.base == entry_with(entries@, i as int).base);
                                    assert(share.value@ == entry_with(entries@, i as int).value@);
                                } else {
                                    assert(out@[k2].base == entry_with(
                                        entries@,
                                        big_value(out@[k2].x),
                                    ).base);
                                }
                            }
                            assert(parsed_points(entries@, i as int) == parsed_points(
                                entries@,
                                idx as int,
                            ).push(
                                (
                                    i as int,
                                    text_value(
                                        entry_with(entries@, i as int).value@,
                                        entry_with(entries@, i as int).base as int,
                                    ),
                                ),
                            ));
                        }
                    },
                    Err(_) => {
                        proof {
                            assert(!good_entry(entry_with(entries@, i as int)));
                            assert(parsed_points(entries@, i as int) == parsed_points(
                                entries@,
                                idx as int,
                            ));
                        }
                    },
                }
            } else {
                proof {
                    assert(!good_entry(entry_with(entries@, i as int)));
                    assert(parsed_points(entries@, i as int) == parsed_points(
                        entries@,
                        idx as int,
                    ));
                }
            }
        } else {
            proof {
                assert(!share_included(entries@, i as int));
                assert(parsed_points(entries@, i as int) == parsed_points(entries@, idx as int));
            }
        }
        idx = idx + 1;
    }
    out
}

/// Recovers the secret from the first `threshold` of the given shares by
/// exact Lagrange interpolation at zero.
///
/// Fewer shares than the threshold are refused with `InsufficientShares`;
/// points that do not all lie on one polynomial are refused with
/// `InconsistentShares`.
pub fn recover_secret(shares: &[Share], k: usize) -> (r: Result<num_bigint::BigInt, SssError>)
    requires
        shares@.len() >= k ==> distinct_values(share_xs(shares@).take(k as int)),
    ensures
        shares@.len() < k ==> r == Err::<num_bigint::BigInt, SssError>(
            SssError::InsufficientShares,
        ),
        shares@.len() >= k ==> {
            &&& (r is Ok ==> big_value(r->Ok_0) * lagrange_pair(shares@, k as int).1
                == lagrange_pair(shares@, k as int).0)
            &&& (r is Ok <==> exists|q: int| #[trigger] (q * lagrange_pair(shares@, k as int).1)
                == lagrange_pair(shares@, k as int).0)
            &&& (r is Err ==> r == Err::<num_bigint::BigInt, SssError>(
                SssError::InconsistentShares,
            ))
        },
{
    if shares.len() < k {
        return Err(SssError::InsufficientShares);
    }
    let mut x: Vec<num_bigint::BigInt> = Vec::new();
    let mut y: Vec<num_bigint::BigInt> = Vec::new();
    let mut i: usize = 0;
    while i < k
        invariant
            k <= shares@.len(),
            0 <= i <= k,
            x@.len() == i,
            y@.len() == i,
            forall|j: int| 0 <= j < i ==> big_value(#[trigger] x@[j]) == big_value(shares@[j].x),
            forall|j: int| 0 <= j < i ==> big_value(#[trigger] y@[j]) == big_value(shares@[j].y),
        decreases k - i,
    {
        x.push(big_clone(&shares[i].x));
        y.push(big_clone(&shares[i].y));
        i = i + 1;
    }
    proof {
        assert(big_values(x@).take(k as int) =~= share_xs(shares@).take(k as int));
        assert(big_values(y@).take(k as int) =~= share_ys(shares@).take(k as int));
    }
    let r = generate_secret(x.as_slice(), y.as_slice(), k);
    proof {
        assert(lagrange_of(x@, y@, k as int) == lagrange_pair(shares@, k as int));
    }
    r
}

/// The interpolated fraction for the first `k` shares.
pub open spec fn lagrange_pair(shares: Seq<Share>, k: int) -> (int, int) {
    crate::interp::lagrange_sum(share_xs(shares).take(k), share_ys(shares).take(k), k)
}

/// `nr / dr` is the lowest-terms form of the fraction `l`.
pub open spec fn reduced_form(nr: int, dr: int, l: (int, int)) -> bool {
    &&& dr > 0
    &&& coprime(nr, dr)
    &&& nr * l.1 == l.0 * dr
}

/// A correct field-mode result: `fr` times the lowest-terms denominator of
/// the interpolated fraction `l` is congruent to its numerator.
pub open spec fn field_result_ok(fr: int, nr: int, dr: int, l: (int, int), p: int) -> bool {
    &&& reduced_form(nr, dr, l)
    &&& (fr * dr) % p == nr % p
}

/// Mode equivalence: when exact-mode reconstruction yields the integer `s`
/// and the modulus exceeds both results, a field-mode result satisfying its
/// contract equals `s`.  The hypotheses are exactly what the contracts of
/// `generate_secret` (for `s`) and `recover_secret_mod` (for `fr`) give over
/// one interpolated fraction `l`.
pub proof fn lemma_mode_equivalence(s: int, fr: int, l: (int, int), p: int)
    requires
        l.1 != 0,
        s * l.1 == l.0,
        exists|nr: int, dr: int| #[trigger] field_result_ok(fr, nr, dr, l, p),
        p > 1,
        0 <= fr < p,
        0 <= s < p,
    ensures
        fr == s,
{
    let (nr, dr) = choose|nr: int, dr: int| #[trigger] field_result_ok(fr, nr, dr, l, p);
    crate::rational::lemma_coprime_one(s);
    lemma_reduced_unique(nr, dr, s, 1, l.0, l.1);
    assert(fr * dr == fr);
    lemma_small_mod(fr as nat, p as nat);
    lemma_small_mod(s as nat, p as nat);
}

/// Recovers the secret from the first `threshold` shares in field mode: the
/// interpolated fraction is carried exactly and reduced into the field by
/// one modular division.
///
/// A missing modulus is refused with `ModulusNotSet`, too few shares with
/// `InsufficientShares`.  Success is owed exactly when the lowest-terms
/// denominator of the interpolated fraction is coprime to the modulus — as
/// it always is under a prime modulus above the evaluation points; only in
/// the remaining case does the division fail, with `DivisionByZero`.
pub fn recover_secret_mod(shares: &[Share], k: usize, prime: Option<&num_bigint::BigInt>) -> (r:
    Result<num_bigint::BigInt, SssError>)
    requires
        prime is Some ==> big_value(*prime->0) > 1,
        shares@.len() >= k ==> distinct_values(share_xs(shares@).take(k as int)),
    ensures
        prime is None ==> r == Err::<num_bigint::BigInt, SssError>(SssError::ModulusNotSet),
        prime is Some && shares@.len() < k ==> r == Err::<num_bigint::BigInt, SssError>(
            SssError::InsufficientShares,
        ),
        prime is Some && shares@.len() >= k ==> (r is Ok <==> exists|nr: int, dr: int|
            #[trigger] reduced_form(nr, dr, lagrange_pair(shares@, k as int)) && coprime(
                dr,
                big_value(*prime->0),
            )),
        prime is Some && shares@.len() >= k && r is Ok ==> 0 <= big_value(r->Ok_0) < big_value(
            *prime->0,
        ),
        prime is Some && shares@.len() >= k && r is Ok ==> (exists|nr: int, dr: int|
            #[trigger] field_result_ok(
                big_value(r->Ok_0),
                nr,
                dr,
                lagrange_pair(shares@, k as int),
                big_value(*prime->0),
            )),
        prime is Some && shares@.len() >= k && r is Err ==> r == Err::<
            num_bigint::BigInt,
            SssError,
        >(SssError::DivisionByZero),
{
    let p = match prime {
        Some(p) => p,
        None => {
            return Err(SssError::ModulusNotSet);
        },
    };
    if shares.len() < k {
        return Err(SssError::InsufficientShares);
    }
    let ghost vp = big_value(*p);
    proof {
        assert(vp == big_value(*prime->0));
    }
    let mut x: Vec<num_bigint::BigInt> = Vec::new();
    let mut y: Vec<num_bigint::BigInt> = Vec::new();
    let mut i: usize = 0;
    while i < k
        invariant
            k <= shares@.len(),
            0 <= i <= k,
            x@.len() == i,
            y@.len() == i,
            forall|j: int| 0 <= j < i ==> big_value(#[trigger] x@[j]) == big_value(shares@[j].x),
            forall|j: int| 0 <= j < i ==> big_value(#[trigger] y@[j]) == big_value(shares@[j].y),
        decreases k - i,
    {
        x.push(big_clone(&shares[i].x));
        y.push(big_clone(&shares[i].y));
        i = i + 1;
    }
    proof {
        assert(big_values(x@).take(k as int) =~= share_xs(shares@).take(k as int));
        assert(big_values(y@).take(k as int) =~= share_ys(shares@).take(k as int));
    }
    let ans = lagrange_rational(x.as_slice(), y.as_slice(), k);
    let ghost lag = lagrange_pair(shares@, k as int);
    let ghost nr = big_value(ans.num);
    let ghost dr = big_value(ans.den);
    proof {
        assert(lagrange_of(x@, y@, k as int) == lag);
    }
    let nr_mod = big_mod_euclid(&ans.num, p);
    let dr_mod = big_mod_euclid(&ans.den, p);
    proof {
        // The common divisors of the denominator and the modulus survive
        // reduction of the denominator below the modulus, so the inverse
        // exists exactly when the two are coprime.
        assert forall|d: int|
            (divides(d, big_value(dr_mod)) && divides(d, vp)) <==> (divides(d, dr) && divides(
                d,
                vp,
            )) by {
            lemma_common_divisor_step(d, dr, vp);
        }
        assert(coprime(big_value(dr_mod), vp) <==> coprime(dr, vp));
    }
    let inv = match mod_inverse(&dr_mod, p) {
        Some(v) => v,
        None => {
            proof {
                assert(!coprime(dr, vp));
                let lagp = lagrange_pair(shares@, k as int);
                crate::interp::lemma_sum_den_nonzero(
                    share_xs(shares@).take(k as int),
                    share_ys(shares@).take(k as int),
                    k as int,
                );
                assert forall|n2: int, d2: int|
                    !(#[trigger] reduced_form(n2, d2, lagp) && coprime(
                        d2,
                        big_value(*prime->0),
                    )) by {
                    if reduced_form(n2, d2, lagp) && coprime(d2, vp) {
                        lemma_reduced_unique(nr, dr, n2, d2, lagp.0, lagp.1);
                        assert(d2 == dr);
                        assert(false);
                    }
                }
            }
            return Err(SssError::DivisionByZero);
        },
    };
    proof {
        vstd::arithmetic::mul::lemma_mul_nonnegative(big_value(nr_mod), big_value(inv));
    }
    let res = big_rem(&big_mul(&nr_mod, &inv), p);
    proof {
        let vnm = big_value(nr_mod);
        let vdm = big_value(dr_mod);
        let vi = big_value(inv);
        lemma_mod_bound(vnm * vi, vp);
        lemma_mul_mod_noop_left(vnm * vi, dr, vp);
        assert((big_value(res) * dr) % vp == ((vnm * vi) * dr) % vp);
        lemma_mul_mod_noop_right(vnm * vi, dr, vp);
        assert(((vnm * vi) * vdm) % vp == ((vnm * vi) * dr) % vp);
        assert((vnm * vi) * vdm == vnm * (vi * vdm)) by (nonlinear_arith);
        lemma_mul_mod_noop_right(vnm, vi * vdm, vp);
        assert((vnm * ((vi * vdm) % vp)) % vp == (vnm * (vi * vdm)) % vp);
        assert(vi * vdm == vdm * vi) by (nonlinear_arith);
        assert((vdm * vi) % vp == 1);
        assert(vnm * 1 == vnm);
        lemma_small_mod(vnm as nat, vp as nat);
        assert((big_value(res) * dr) % vp == nr % vp);
        assert(field_result_ok(big_value(res), nr, dr, lag, vp));
        assert(coprime(dr, vp));
        assert(reduced_form(nr, dr, lag) && coprime(dr, big_value(*prime->0)));
        assert(exists|n2: int, d2: int| #[trigger] reduced_form(n2, d2, lag) && coprime(
            d2,
            big_value(*prime->0),
        ));
    }
    let out: Result<num_bigint::BigInt, SssError> = Ok(res);
    proof {
        assert(big_value(out->Ok_0) == big_value(res));
        assert(field_result_ok(
            big_value(out->Ok_0),
            nr,
            dr,
            lagrange_pair(shares@, k as int),
            big_value(*prime->0),
        ));
        assert(exists|nr2: int, dr2: int| #[trigger] field_result_ok(
            big_value(out->Ok_0),
            nr2,
            dr2,
            lagrange_pair(shares@, k as int),
            big_value(*prime->0),
        ));
    }
    out
}

} // verus!
