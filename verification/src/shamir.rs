//! The sharing and recovery entry points: polynomial evaluation over a prime
//! field, share strings, and reconstruction back to the secret text.
//!
//! A share string is the point's `x` and `y` rendered in the alphabet,
//! joined by `-`, which therefore must not be an alphabet symbol.

use vstd::prelude::*;
use vstd::string::StringExecFns;
use vstd::arithmetic::div_mod::{lemma_add_mod_noop, lemma_mod_bound, lemma_mul_mod_noop_left};
use vstd::arithmetic::mul::lemma_mul_nonnegative;
use crate::alphabet::{alpha_has, alpha_index, alpha_value, alpha_wf, int_to_symbol, symbol_to_int,
    valid_symbols};
use crate::bignum::{big_add, big_clone, big_eq, big_from_u64, big_lt, big_mul, big_rem, big_value,
    big_values};
use crate::error::SssError;
use crate::interp::{distinct_values, generate_secret, lagrange_of, lagrange_sum,
    lemma_sum_den_nonzero};

verus! {

/// The value at `x` of the polynomial with these coefficients, constant term
/// first.
pub open spec fn poly_eval(cs: Seq<int>, x: int) -> int
    decreases cs.len(),
{
    if cs.len() == 0 {
        0
    } else {
        cs[0] + x * poly_eval(cs.drop_first(), x)
    }
}

/// Index of the first `-`, or -1.
pub open spec fn find_dash(s: Seq<char>) -> int
    decreases s.len(),
{
    if s.len() == 0 {
        -1
    } else if s[0] == '-' {
        0
    } else {
        if find_dash(s.drop_first()) < 0 {
            -1
        } else {
            1 + find_dash(s.drop_first())
        }
    }
}

pub proof fn lemma_find_dash(s: Seq<char>)
    ensures
        find_dash(s) >= 0 ==> find_dash(s) < s.len() && s[find_dash(s)] == '-' && (forall|j: int|
            0 <= j < find_dash(s) ==> s[j] != '-'),
        find_dash(s) < 0 ==> (forall|j: int| 0 <= j < s.len() ==> s[j] != '-'),
    decreases s.len(),
{
    if s.len() > 0 && s[0] != '-' {
        lemma_find_dash(s.drop_first());
        let rest = s.drop_first();
        if find_dash(s) >= 0 {
            assert(s[find_dash(s)] == rest[find_dash(rest)]);
            assert forall|j: int| 0 <= j < find_dash(s) implies s[j] != '-' by {
                if j > 0 {
                    assert(rest[j - 1] == s[j]);
                    assert(rest[j - 1] != '-');
                }
            }
        } else {
            assert forall|j: int| 0 <= j < s.len() implies s[j] != '-' by {
                if j > 0 {
                    assert(rest[j - 1] == s[j]);
                }
            }
        }
    }
}

/// What a share string denotes: split at the first `-`, both parts non-empty
/// symbol strings, the first worth at least one.
pub open spec fn decode_spec(s: Seq<char>, a: Seq<char>) -> Option<(int, int)> {
    if find_dash(s) < 0 {
        None
    } else {
        if decode_parts_ok(s, a) {
            Some(
                (
                    alpha_value(s.subrange(0, find_dash(s)), a),
                    alpha_value(s.subrange(find_dash(s) + 1, s.len() as int), a),
                ),
            )
        } else {
            None
        }
    }
}

/// Both parts around the first `-` are usable.
pub open spec fn decode_parts_ok(s: Seq<char>, a: Seq<char>) -> bool {
    let f = find_dash(s);
    &&& s.subrange(0, f).len() > 0
    &&& valid_symbols(s.subrange(0, f), a)
    &&& alpha_value(s.subrange(0, f), a) >= 1
    &&& s.subrange(f + 1, s.len() as int).len() > 0
    &&& valid_symbols(s.subrange(f + 1, s.len() as int), a)
}

/// The first dash of `p + rest` is `rest`'s leading dash when `p` has none.
proof fn lemma_find_dash_concat(p: Seq<char>, rest: Seq<char>)
    requires
        forall|i: int| 0 <= i < p.len() ==> p[i] != '-',
        rest.len() > 0,
        rest[0] == '-',
    ensures
        find_dash(p + rest) == p.len(),
    decreases p.len(),
{
    let whole = p + rest;
    if p.len() == 0 {
        assert(whole =~= rest);
    } else {
        assert(whole[0] == p[0]);
        lemma_find_dash_concat(p.drop_first(), rest);
        assert(whole.drop_first() =~= p.drop_first() + rest);
    }
}

/// Renders the point `(x, y)` as a share string: `x` and `y` in the
/// alphabet, joined by `-`.  The result decodes back to exactly `(x, y)`.
pub fn encode_share(
    x: &num_bigint::BigInt,
    y: &num_bigint::BigInt,
    alphabet: &[char],
) -> (r: String)
    requires
        alpha_wf(alphabet@),
        !alpha_has(alphabet@, '-'),
        big_value(*x) >= 1,
        big_value(*y) >= 0,
    ensures
        decode_spec(r@, alphabet@) == Some((big_value(*x), big_value(*y))),
{
    let ghost a = alphabet@;
    let sx = match int_to_symbol(x, alphabet) {
        Ok(s) => s,
        Err(_) => {
            proof {
                assert(false);
            }
            String::new()
        },
    };
    let sy = match int_to_symbol(y, alphabet) {
        Ok(s) => s,
        Err(_) => {
            proof {
                assert(false);
            }
            String::new()
        },
    };
    let mut out = sx;
    let ghost xs = out@;
    out.push('-');
    out.append(sy.as_str());
    proof {
        let ys = sy@;
        assert(out@ =~= xs + (seq!['-'] + ys));
        assert forall|i: int| 0 <= i < xs.len() implies xs[i] != '-' by {
            assert(alpha_has(a, xs[i]));
        }
        lemma_find_dash_concat(xs, seq!['-'] + ys);
        assert((seq!['-'] + ys)[0] == '-');
        let f = find_dash(out@);
        assert(f == xs.len());
        assert(out@.subrange(0, f) =~= xs);
        assert(out@.subrange(f + 1, out@.len() as int) =~= ys);
        assert(alpha_value(xs, a) == big_value(*x));
        assert(alpha_value(ys, a) == big_value(*y));
    }
    out
}

/// Parses a share string back to its point.
///
/// Any structural violation is `MalformedShare`: no `-`, an empty part, a
/// character not in the alphabet (a second `-` included), or an `x` below
/// one.
pub fn decode_share(s: &str, alphabet: &[char]) -> (r: Result<
    (num_bigint::BigInt, num_bigint::BigInt),
    SssError,
>)
    requires
        alpha_wf(alphabet@),
        !alpha_has(alphabet@, '-'),
    ensures
        r is Ok <==> decode_spec(s@, alphabet@) is Some,
        r is Ok ==> big_value((r->Ok_0).0) == (decode_spec(s@, alphabet@)->0).0 && big_value(
            (r->Ok_0).1,
        ) == (decode_spec(s@, alphabet@)->0).1,
        r is Err ==> r == Err::<(num_bigint::BigInt, num_bigint::BigInt), SssError>(
            SssError::MalformedShare,
        ),
{
    let ghost a = alphabet@;
    let n = s.unicode_len();
    let mut i: usize = 0;
    let mut found: bool = false;
    let mut fd: usize = 0;
    while i < n
        invariant
            n == s@.len(),
            0 <= i <= n,
            found ==> 0 <= fd < i && s@[fd as int] == '-' && (forall|j: int|
                0 <= j < fd ==> s@[j] != '-'),
            !found ==> (forall|j: int| 0 <= j < i ==> s@[j] != '-'),
        decreases n - i,
    {
        if !found && s.get_char(i) == '-' {
            found = true;
            fd = i;
        }
        i = i + 1;
    }
    proof {
        lemma_find_dash(s@);
        if found {
            let f = find_dash(s@);
            assert(f >= 0);
            assert(f == fd as int);
        }
    }
    if !found {
        return Err(SssError::MalformedShare);
    }
    let sx = s.substring_char(0, fd);
    let sy = s.substring_char(fd + 1, n);
    proof {
        assert(sx@ == s@.subrange(0, fd as int));
        assert(sy@ == s@.subrange(fd + 1, n as int));
    }
    let x = match symbol_to_int(sx, alphabet) {
        Ok(v) => v,
        Err(_) => {
            return Err(SssError::MalformedShare);
        },
    };
    let y = match symbol_to_int(sy, alphabet) {
        Ok(v) => v,
        Err(_) => {
            return Err(SssError::MalformedShare);
        },
    };
    let one = big_from_u64(1);
    if big_lt(&x, &one) {
        return Err(SssError::MalformedShare);
    }
    Ok((x, y))
}

/// Horner evaluation of the polynomial at `x`, reduced modulo `prime` at
/// every step: returns exactly the polynomial's value modulo the prime.
fn eval_mod(poly: &[num_bigint::BigInt], x: u64, prime: &num_bigint::BigInt) -> (r:
    num_bigint::BigInt)
    requires
        big_value(*prime) > 1,
        forall|i: int| 0 <= i < poly@.len() ==> big_value(#[trigger] poly@[i]) >= 0,
    ensures
        big_value(r) == poly_eval(big_values(poly@), x as int) % big_value(*prime),
        0 <= big_value(r) < big_value(*prime),
{
    let ghost cs = big_values(poly@);
    let ghost vp = big_value(*prime);
    let x_big = big_from_u64(x);
    let mut acc = big_from_u64(0);
    let mut idx = poly.len();
    proof {
        assert(cs.skip(idx as int) =~= Seq::<int>::empty());
        lemma_mod_bound(0, vp);
        vstd::arithmetic::div_mod::lemma_small_mod(0, vp as nat);
    }
    while idx > 0
        invariant
            big_value(*prime) == vp,
            vp > 1,
            cs == big_values(poly@),
            forall|i: int| 0 <= i < poly@.len() ==> big_value(#[trigger] poly@[i]) >= 0,
            big_value(x_big) == x as int,
            0 <= idx <= poly@.len(),
            0 <= big_value(acc) < vp,
            big_value(acc) == poly_eval(cs.skip(idx as int), x as int) % vp,
        decreases idx,
    {
        idx = idx - 1;
        let ghost prev = poly_eval(cs.skip(idx + 1), x as int);
        let ghost vacc = big_value(acc);
        let t = big_add(&big_mul(&acc, &x_big), &poly[idx]);
        proof {
            let c = cs[idx as int];
            assert(c == big_value(poly@[idx as int]));
            assert(cs.skip(idx as int)[0] == c);
            assert(cs.skip(idx as int).drop_first() =~= cs.skip(idx + 1));
            assert(poly_eval(cs.skip(idx as int), x as int) == c + (x as int) * prev);
            lemma_mul_nonnegative(vacc, x as int);
            lemma_mul_mod_noop_left(prev, x as int, vp);
            assert((vacc * (x as int)) % vp == (prev * (x as int)) % vp);
            lemma_add_mod_noop(vacc * (x as int), c, vp);
            lemma_add_mod_noop(prev * (x as int), c, vp);
            assert(((vacc * (x as int)) % vp + c % vp) % vp == (vacc * (x as int) + c) % vp);
            assert(((prev * (x as int)) % vp + c % vp) % vp == (prev * (x as int) + c) % vp);
            assert((vacc * (x as int) + c) % vp == ((x as int) * prev + c) % vp);
            lemma_mod_bound(big_value(t), vp);
        }
        acc = big_rem(&t, prime);
    }
    proof {
        assert(cs.skip(0) =~= cs);
    }
    acc
}

/// Splits a secret into `n` share strings, any `k` of which recover it.
///
/// The polynomial has the encoded secret as constant term and the given
/// coefficients (drawn by the caller from a secure randomness capability,
/// uniformly in `[0, prime)`) above it; share `i` carries the point
/// `(i, poly(i) mod prime)`.  The prime is chosen by the caller's
/// prime-selection capability, above both the encoded secret and `n`; it
/// must be kept: without it, shares cannot be reconstructed in field mode.
///
/// A threshold below two is refused with `ThresholdTooLow`, one above `n`
/// with `ThresholdTooHigh`; a secret that is not a non-empty string over the
/// alphabet is refused as `symbol_to_int` refuses it.
pub fn generate_shares(
    secret: &str,
    k: usize,
    n: usize,
    alphabet: &[char],
    prime: &num_bigint::BigInt,
    coeffs: &[num_bigint::BigInt],
) -> (r: Result<Vec<String>, SssError>)
    requires
        alpha_wf(alphabet@),
        !alpha_has(alphabet@, '-'),
        big_value(*prime) > n as int,
        big_value(*prime) > alpha_value(secret@, alphabet@),
        2 <= k <= n ==> coeffs@.len() == k - 1,
        forall|i: int| 0 <= i < coeffs@.len() ==> 0 <= big_value(#[trigger] coeffs@[i])
            < big_value(*prime),
        n < usize::MAX,
    ensures
        k < 2 ==> r == Err::<Vec<String>, SssError>(SssError::ThresholdTooLow),
        k >= 2 && k > n ==> r == Err::<Vec<String>, SssError>(SssError::ThresholdTooHigh),
        2 <= k <= n && secret@.len() == 0 ==> r == Err::<Vec<String>, SssError>(
            SssError::EmptyInput,
        ),
        2 <= k <= n && secret@.len() > 0 && !valid_symbols(secret@, alphabet@) ==> r == Err::<
            Vec<String>,
            SssError,
        >(SssError::InvalidSymbol),
        r is Ok <==> 2 <= k <= n && secret@.len() > 0 && valid_symbols(secret@, alphabet@),
        r is Ok ==> r->Ok_0@.len() == n as int,
        r is Ok ==> forall|i: int| #![trigger r->Ok_0@[i]]
            0 <= i < n as int ==> decode_spec(r->Ok_0@[i]@, alphabet@) == Some(
                (
                    i + 1,
                    poly_eval(
                        seq![alpha_value(secret@, alphabet@)] + big_values(coeffs@),
                        i + 1,
                    ) % big_value(*prime),
                ),
            ),
{
    if k < 2 {
        return Err(SssError::ThresholdTooLow);
    }
    if k > n {
        return Err(SssError::ThresholdTooHigh);
    }
    let s_int = match symbol_to_int(secret, alphabet) {
        Ok(v) => v,
        Err(e) => {
            return Err(e);
        },
    };
    let ghost sv = alpha_value(secret@, alphabet@);
    proof {
        crate::alphabet::lemma_alpha_value_nonneg(secret@, alphabet@);
    }
    let mut poly: Vec<num_bigint::BigInt> = Vec::new();
    poly.push(s_int);
    let mut ci: usize = 0;
    while ci < coeffs.len()
        invariant
            coeffs@.len() == k - 1,
            0 <= ci <= coeffs@.len(),
            poly@.len() == ci + 1,
            big_value(poly@[0]) == sv,
            forall|i: int| 0 <= i < coeffs@.len() ==> 0 <= big_value(#[trigger] coeffs@[i]),
            forall|i: int| 1 <= i <= ci ==> big_value(#[trigger] poly@[i]) == big_value(
                coeffs@[i - 1],
            ),
            forall|i: int| 0 <= i < poly@.len() ==> big_value(#[trigger] poly@[i]) >= 0,
            sv >= 0,
        decreases coeffs@.len() - ci,
    {
        poly.push(big_clone(&coeffs[ci]));
        ci = ci + 1;
    }
    proof {
        assert(big_values(poly@) =~= seq![sv] + big_values(coeffs@));
    }
    let mut out: Vec<String> = Vec::new();
    let mut i: usize = 0;
    while i < n
        invariant
            alpha_wf(alphabet@),
            !alpha_has(alphabet@, '-'),
            big_value(*prime) > n as int,
            n < usize::MAX,
            0 <= i <= n,
            out@.len() == i,
            forall|j: int| 0 <= j < poly@.len() ==> big_value(#[trigger] poly@[j]) >= 0,
            big_values(poly@) == seq![sv] + big_values(coeffs@),
            forall|j: int| #![trigger out@[j]]
                0 <= j < i ==> decode_spec(out@[j]@, alphabet@) == Some(
                    (
                        j + 1,
                        poly_eval(seq![sv] + big_values(coeffs@), j + 1) % big_value(*prime),
                    ),
                ),
        decreases n - i,
    {
        let xv = i + 1;
        let y = eval_mod(poly.as_slice(), xv as u64, prime);
        let x_big = big_from_u64(xv as u64);
        let share = encode_share(&x_big, &y, alphabet);
        out.push(share);
        i = i + 1;
    }
    Ok(out)
}

/// The `x` values a sequence of share strings decodes to.
pub open spec fn decoded_xs(shares: Seq<String>, a: Seq<char>, k: int) -> Seq<int> {
    Seq::new(k as nat, |i: int| (decode_spec(shares[i]@, a)->0).0)
}

/// The `y` values a sequence of share strings decodes to.
pub open spec fn decoded_ys(shares: Seq<String>, a: Seq<char>, k: int) -> Seq<int> {
    Seq::new(k as nat, |i: int| (decode_spec(shares[i]@, a)->0).1)
}

/// Every one of the first `k` share strings decodes.
pub open spec fn all_decode(shares: Seq<String>, a: Seq<char>, k: int) -> bool {
    forall|i: int| 0 <= i < k ==> decode_spec((#[trigger] shares[i])@, a) is Some
}

/// The fraction the first `k` share strings interpolate to at zero.
pub open spec fn decoded_pair(shares: Seq<String>, a: Seq<char>, k: int) -> (int, int) {
    lagrange_sum(decoded_xs(shares, a, k), decoded_ys(shares, a, k), k)
}

/// The first `k` share strings name a secret: enough of them, all decoding,
/// distinct evaluation points, and a non-negative integer interpolation.
pub open spec fn reconstructible(shares: Seq<String>, a: Seq<char>, k: int) -> bool {
    &&& shares.len() >= k
    &&& all_decode(shares, a, k)
    &&& distinct_values(decoded_xs(shares, a, k))
    &&& exists|q: int|
        q >= 0 && #[trigger] (q * lagrange_sum(
            decoded_xs(shares, a, k),
            decoded_ys(shares, a, k),
            k,
        ).1) == lagrange_sum(decoded_xs(shares, a, k), decoded_ys(shares, a, k), k).0
}

/// Recovers the secret text from the first `k` of the given share strings by
/// exact interpolation, and renders it over the alphabet.
///
/// Fewer strings than `k` are refused with `InsufficientShares`; a string
/// that does not decode, with `MalformedShare`; two shares with the same
/// `x`, or points not on one polynomial, with `InconsistentShares`; a
/// negative interpolated value, with `NegativeValue`.
pub fn reconstruct_secret(shares: &Vec<String>, k: usize, alphabet: &[char]) -> (r: Result<
    String,
    SssError,
>)
    requires
        alpha_wf(alphabet@),
        !alpha_has(alphabet@, '-'),
    ensures
        shares@.len() < k ==> r == Err::<String, SssError>(SssError::InsufficientShares),
        r is Ok <==> reconstructible(shares@, alphabet@, k as int),
        r is Ok ==> alpha_value(r->Ok_0@, alphabet@) * decoded_pair(shares@, alphabet@, k as int).1
            == decoded_pair(shares@, alphabet@, k as int).0,
        shares@.len() >= k && !all_decode(shares@, alphabet@, k as int) ==> r == Err::<
            String,
            SssError,
        >(SssError::MalformedShare),
        shares@.len() >= k && all_decode(shares@, alphabet@, k as int) && !distinct_values(
            decoded_xs(shares@, alphabet@, k as int),
        ) ==> r == Err::<String, SssError>(SssError::InconsistentShares),
        shares@.len() >= k && all_decode(shares@, alphabet@, k as int) && distinct_values(
            decoded_xs(shares@, alphabet@, k as int),
        ) && !(exists|q: int| #[trigger] (q * decoded_pair(shares@, alphabet@, k as int).1)
            == decoded_pair(shares@, alphabet@, k as int).0) ==> r == Err::<String, SssError>(
            SssError::InconsistentShares,
        ),
        shares@.len() >= k && all_decode(shares@, alphabet@, k as int) && distinct_values(
            decoded_xs(shares@, alphabet@, k as int),
        ) && (exists|q: int| #[trigger] (q * decoded_pair(shares@, alphabet@, k as int).1)
            == decoded_pair(shares@, alphabet@, k as int).0) && !(exists|q: int|
            q >= 0 && #[trigger] (q * decoded_pair(shares@, alphabet@, k as int).1)
                == decoded_pair(shares@, alphabet@, k as int).0) ==> r == Err::<String, SssError>(
            SssError::NegativeValue,
        ),
        r is Ok ==> r->Ok_0@.len() > 0 && valid_symbols(r->Ok_0@, alphabet@) && (alpha_index(
            alphabet@,
            r->Ok_0@[0],
        ) == 0 ==> r->Ok_0@.len() == 1),
{
    if shares.len() < k {
        return Err(SssError::InsufficientShares);
    }
    let ghost a = alphabet@;
    let mut x: Vec<num_bigint::BigInt> = Vec::new();
    let mut y: Vec<num_bigint::BigInt> = Vec::new();
    let mut i: usize = 0;
    while i < k
        invariant
            alpha_wf(a),
            a == alphabet@,
            !alpha_has(a, '-'),
            k <= shares@.len(),
            0 <= i <= k,
            x@.len() == i,
            y@.len() == i,
            forall|j: int| 0 <= j < i ==> decode_spec((#[trigger] shares@[j])@, a) is Some,
            forall|j: int| 0 <= j < i ==> big_value(#[trigger] x@[j]) == (decode_spec(
                shares@[j]@,
                a,
            )->0).0,
            forall|j: int| 0 <= j < i ==> big_value(#[trigger] y@[j]) == (decode_spec(
                shares@[j]@,
                a,
            )->0).1,
        decreases k - i,
    {
        let (xi, yi) = match decode_share(shares[i].as_str(), alphabet) {
            Ok(p) => p,
            Err(_) => {
                proof {
                    assert(!all_decode(shares@, a, k as int));
                }
                return Err(SssError::MalformedShare);
            },
        };
        x.push(xi);
        y.push(yi);
        i = i + 1;
    }
    // Two shares with one x cannot come from one session's points.
    let mut i1: usize = 0;
    while i1 < k
        invariant
            a == alphabet@,
            k <= shares@.len(),
            0 <= i1 <= k,
            x@.len() == k,
            forall|j: int| 0 <= j < k ==> decode_spec((#[trigger] shares@[j])@, a) is Some,
            forall|j: int| 0 <= j < k ==> big_value(#[trigger] x@[j]) == (decode_spec(
                shares@[j]@,
                a,
            )->0).0,
            forall|j1: int, j2: int| #![trigger x@[j1], x@[j2]]
                0 <= j1 < j2 < x@.len() && j1 < i1 ==> big_value(x@[j1]) != big_value(x@[j2]),
        decreases k - i1,
    {
        let mut i2: usize = i1 + 1;
        while i2 < k
            invariant
                a == alphabet@,
                k <= shares@.len(),
                0 <= i1 < i2 <= k,
                x@.len() == k,
                forall|j: int| 0 <= j < k ==> decode_spec((#[trigger] shares@[j])@, a) is Some,
                forall|j: int| 0 <= j < k ==> big_value(#[trigger] x@[j]) == (decode_spec(
                    shares@[j]@,
                    a,
                )->0).0,
                forall|j2: int| i1 < j2 < i2 ==> big_value(#[trigger] x@[j2]) != big_value(
                    x@[i1 as int],
                ),
            decreases k - i2,
        {
            if big_eq(&x[i1], &x[i2]) {
                proof {
                    let dxs = decoded_xs(shares@, a, k as int);
                    assert(dxs[i1 as int] == dxs[i2 as int]);
                    assert(!distinct_values(dxs));
                }
                return Err(SssError::InconsistentShares);
            }
            i2 = i2 + 1;
        }
        i1 = i1 + 1;
    }
    proof {
        assert forall|j1: int, j2: int|
            0 <= j1 < x@.len() && 0 <= j2 < x@.len() && j1 != j2 implies big_value(#[trigger] x@[j1])
            != big_value(#[trigger] x@[j2]) by {
            if j1 < j2 {
                assert(big_value(x@[j1]) != big_value(x@[j2]));
            } else {
                assert(big_value(x@[j2]) != big_value(x@[j1]));
            }
        }
        assert(big_values(x@).take(k as int) =~= decoded_xs(shares@, a, k as int));
        assert(big_values(y@).take(k as int) =~= decoded_ys(shares@, a, k as int));
    }
    let ghost dxs = decoded_xs(shares@, a, k as int);
    let ghost dys = decoded_ys(shares@, a, k as int);
    let ghost lag = lagrange_sum(dxs, dys, k as int);
    proof {
        assert(lagrange_of(x@, y@, k as int) == lag);
        assert(lag == decoded_pair(shares@, alphabet@, k as int));
    }
    let s_int = match generate_secret(x.as_slice(), y.as_slice(), k) {
        Ok(v) => v,
        Err(e) => {
            proof {
                assert forall|q: int| !(q >= 0 && #[trigger] (q * lag.1) == lag.0) by {
                    if q * lag.1 == lag.0 {
                        assert(q * lagrange_of(x@, y@, k as int).1 == lagrange_of(
                            x@,
                            y@,
                            k as int,
                        ).0);
                    }
                }
            }
            return Err(e);
        },
    };
    let ghost sv = big_value(s_int);
    match int_to_symbol(&s_int, alphabet) {
        Ok(text) => {
            proof {
                assert(sv >= 0 && (sv * lag.1) == lag.0);
                assert(exists|q: int| #[trigger] (q * lag.1) == lag.0);
                assert(exists|q: int| q >= 0 && #[trigger] (q * lag.1) == lag.0);
            }
            Ok(text)
        },
        Err(e) => {
            proof {
                // The interpolated integer is negative, and it is the only
                // integer the fraction reduces to.
                assert(sv * lag.1 == lag.0);
                assert(exists|q: int| #[trigger] (q * lag.1) == lag.0);
                lemma_sum_den_nonzero(dxs, dys, k as int);
                assert forall|q: int| !(q >= 0 && #[trigger] (q * lag.1) == lag.0) by {
                    if q >= 0 && q * lag.1 == lag.0 {
                        assert(q == sv) by (nonlinear_arith)
                            requires
                                q * lag.1 == lag.0,
                                sv * lag.1 == lag.0,
                                lag.1 != 0,
                        ;
                        assert(false);
                    }
                }
            }
            Err(e)
        },
    }
}

} // verus!
