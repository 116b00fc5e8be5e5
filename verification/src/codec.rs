//! Positional numeral codec: between digit strings in a base `2..=36` (digit
//! set `0-9a-z`, case-insensitive on input, lower case on output) and
//! unbounded integers.

use vstd::prelude::*;
use vstd::arithmetic::div_mod::{lemma_fundamental_div_mod, lemma_fundamental_div_mod_converse,
    lemma_div_is_strictly_smaller, lemma_mod_bound, lemma_small_mod};
use vstd::arithmetic::mul::{lemma_mul_inequality, lemma_mul_nonnegative};
use vstd::arithmetic::power::{lemma_pow0, lemma_pow1, lemma_pow_adds, lemma_pow_positive, pow};
use crate::bignum::{big_add, big_div, big_from_u64, big_is_zero, big_lt, big_mul, big_rem,
    big_to_u64, big_value};
use crate::error::SssError;

verus! {

/// Relies on `String::push`: appends exactly the one character.
pub assume_specification[ String::push ](s: &mut String, c: char)
    ensures
        final(s)@ == old(s)@.push(c),
;

/// The numeral value of a character under the canonical digit set
/// `0-9a-zA-Z` (`a` and `A` both stand for ten, and so on).  A character
/// outside the set gets 36, which no base accepted here reaches.
pub open spec fn digit_value(c: char) -> int {
    if 48 <= c as int <= 57 {
        c as int - 48
    } else if 97 <= c as int <= 122 {
        c as int - 87
    } else if 65 <= c as int <= 90 {
        c as int - 55
    } else {
        36
    }
}

/// The lower-case character the codec emits for a digit value below 36.
pub open spec fn digit_char(d: int) -> char {
    if 0 <= d < 10 {
        ((d + 48) as u8) as char
    } else if 10 <= d < 36 {
        ((d + 87) as u8) as char
    } else {
        ' '
    }
}

/// Big-endian value of a digit string.
pub open spec fn text_value(s: Seq<char>, base: int) -> int
    decreases s.len(),
{
    if s.len() == 0 {
        0
    } else {
        text_value(s.drop_last(), base) * base + digit_value(s.last())
    }
}

/// Every character is a digit for this base.
pub open spec fn valid_digits(s: Seq<char>, base: int) -> bool {
    forall|i: int| 0 <= i < s.len() ==> digit_value(#[trigger] s[i]) < base
}

/// Every character is the codec's own output form (digits `0-9a-z`).
pub open spec fn lower_digits(s: Seq<char>) -> bool {
    forall|i: int| 0 <= i < s.len() ==> #[trigger] s[i] == digit_char(digit_value(s[i]))
}

/// Leading zero digits removed.
pub open spec fn strip_digits(s: Seq<char>) -> Seq<char>
    decreases s.len(),
{
    if s.len() > 0 && digit_value(s[0]) == 0 {
        strip_digits(s.drop_first())
    } else {
        s
    }
}

pub proof fn lemma_digit_char_value(d: int)
    requires
        0 <= d < 36,
    ensures
        digit_value(digit_char(d)) == d,
{
}

pub proof fn lemma_text_value_push(s: Seq<char>, c: char, base: int)
    ensures
        text_value(s.push(c), base) == text_value(s, base) * base + digit_value(c),
{
    assert(s.push(c).drop_last() =~= s);
    assert(s.push(c).last() == c);
}

pub proof fn lemma_text_value_nonneg(s: Seq<char>, base: int)
    requires
        base >= 2,
    ensures
        text_value(s, base) >= 0,
    decreases s.len(),
{
    if s.len() > 0 {
        lemma_text_value_nonneg(s.drop_last(), base);
        lemma_mul_nonnegative(text_value(s.drop_last(), base), base);
    }
}

/// Prepending a digit adds it at the highest place.
pub proof fn lemma_text_value_prepend(c: char, s: Seq<char>, base: int)
    requires
        base >= 1,
    ensures
        text_value(seq![c] + s, base) == digit_value(c) * pow(base, s.len() as nat) + text_value(
            s,
            base,
        ),
    decreases s.len(),
{
    if s.len() == 0 {
        assert(seq![c] + s =~= seq![c]);
        assert(seq![c].drop_last() =~= Seq::<char>::empty());
        assert(text_value(Seq::<char>::empty(), base) == 0);
        lemma_pow0(base);
    } else {
        let whole = seq![c] + s;
        assert(whole.drop_last() =~= seq![c] + s.drop_last());
        assert(whole.last() == s.last());
        lemma_text_value_prepend(c, s.drop_last(), base);
        let l1 = (s.len() - 1) as nat;
        lemma_pow1(base);
        lemma_pow_adds(base, 1, l1);
        assert(pow(base, s.len() as nat) == base * pow(base, l1));
        let d = digit_value(c);
        let rest = text_value(s.drop_last(), base);
        assert((d * pow(base, l1) + rest) * base == d * (base * pow(base, l1)) + rest * base)
            by (nonlinear_arith);
    }
}

/// A string with a positive first digit is worth at least one.
pub proof fn lemma_text_value_first_pos(s: Seq<char>, base: int)
    requires
        base >= 2,
        valid_digits(s, base),
        s.len() > 0,
        digit_value(s[0]) >= 1,
    ensures
        text_value(s, base) >= pow(base, (s.len() - 1) as nat),
        text_value(s, base) >= 1,
    decreases s.len(),
{
    lemma_pow_positive(base, (s.len() - 1) as nat);
    if s.len() == 1 {
        assert(s.drop_last() =~= Seq::<char>::empty());
        lemma_pow0(base);
    } else {
        assert(s.drop_last()[0] == s[0]);
        lemma_text_value_first_pos(s.drop_last(), base);
        let l2 = (s.len() - 2) as nat;
        lemma_pow_positive(base, l2);
        lemma_mul_inequality(pow(base, l2), text_value(s.drop_last(), base), base);
        lemma_pow1(base);
        lemma_pow_adds(base, l2, 1);
        assert(pow(base, (s.len() - 1) as nat) == pow(base, l2) * base);
    }
}

/// Dropping a leading zero digit does not change the value.
pub proof fn lemma_drop_leading_zero(s: Seq<char>, base: int)
    requires
        s.len() > 0,
        digit_value(s[0]) == 0,
    ensures
        text_value(s, base) == text_value(s.drop_first(), base),
    decreases s.len(),
{
    if s.len() == 1 {
        assert(s.drop_last() =~= Seq::<char>::empty());
        assert(s.drop_first() =~= Seq::<char>::empty());
        assert(s.last() == s[0]);
    } else {
        lemma_drop_leading_zero(s.drop_last(), base);
        assert(s.drop_last().drop_first() =~= s.drop_first().drop_last());
        assert(s.drop_first().last() == s.last());
    }
}

/// Stripping leading zeros keeps the value, leaves no leading zero, and
/// returns a suffix.
pub proof fn lemma_strip_digits(s: Seq<char>, base: int)
    ensures
        text_value(strip_digits(s), base) == text_value(s, base),
        strip_digits(s).len() > 0 ==> digit_value(strip_digits(s)[0]) != 0,
        strip_digits(s) =~= s.skip(s.len() - strip_digits(s).len()),
        strip_digits(s).len() <= s.len(),
    decreases s.len(),
{
    if s.len() > 0 && digit_value(s[0]) == 0 {
        lemma_drop_leading_zero(s, base);
        lemma_strip_digits(s.drop_first(), base);
        let st = strip_digits(s);
        assert(s.drop_first() =~= s.skip(1));
        assert(s.skip(1).skip(s.skip(1).len() - st.len()) =~= s.skip(s.len() - st.len()));
    }
}

/// Two digit strings without leading zeros and with the same value name the
/// same digits.
pub proof fn lemma_text_value_unique(a: Seq<char>, b: Seq<char>, base: int)
    requires
        base >= 2,
        valid_digits(a, base),
        valid_digits(b, base),
        a.len() > 0 ==> digit_value(a[0]) != 0,
        b.len() > 0 ==> digit_value(b[0]) != 0,
        text_value(a, base) == text_value(b, base),
    ensures
        a.len() == b.len(),
        forall|i: int| 0 <= i < a.len() ==> digit_value(#[trigger] a[i]) == digit_value(b[i]),
    decreases a.len() + b.len(),
{
    if a.len() == 0 {
        if b.len() > 0 {
            lemma_text_value_first_pos(b, base);
        }
    } else if b.len() == 0 {
        lemma_text_value_first_pos(a, base);
    } else {
        let v = text_value(a, base);
        lemma_text_value_nonneg(a.drop_last(), base);
        lemma_text_value_nonneg(b.drop_last(), base);
        lemma_fundamental_div_mod_converse(
            v,
            base,
            text_value(a.drop_last(), base),
            digit_value(a.last()),
        );
        lemma_fundamental_div_mod_converse(
            v,
            base,
            text_value(b.drop_last(), base),
            digit_value(b.last()),
        );
        if a.len() > 1 {
            assert(a.drop_last()[0] == a[0]);
        }
        if b.len() > 1 {
            assert(b.drop_last()[0] == b[0]);
        }
        lemma_text_value_unique(a.drop_last(), b.drop_last(), base);
        assert forall|i: int| 0 <= i < a.len() implies digit_value(#[trigger] a[i]) == digit_value(
            b[i],
        ) by {
            if i < a.len() - 1 {
                assert(a.drop_last()[i] == a[i]);
                assert(b.drop_last()[i] == b[i]);
            } else {
                assert(a.last() == a[i]);
                assert(b.last() == b[i]);
            }
        }
    }
}

/// Digit value of one character, computed; 36 stands for "not a digit".
fn digit_of_char(c: char) -> (d: u32)
    ensures
        d as int == digit_value(c),
{
    let u = c as u32;
    if 48 <= u && u <= 57 {
        u - 48
    } else if 97 <= u && u <= 122 {
        u - 87
    } else if 65 <= u && u <= 90 {
        u - 55
    } else {
        36
    }
}

/// The character for one digit value.
fn char_of_digit(d: u32) -> (c: char)
    requires
        d < 36,
    ensures
        c == digit_char(d as int),
{
    if d < 10 {
        ((d + 48) as u8) as char
    } else {
        ((d + 87) as u8) as char
    }
}

/// Reads `value` as a big-endian numeral in the given base.
///
/// Returns exactly the value of the digit string; an empty string is refused
/// with `EmptyInput`, and a character whose digit value is not below the base
/// (any character outside `0-9a-zA-Z` included) with `DigitOutOfRange`.
pub fn convert_to_decimal(value: &str, base: u32) -> (r: Result<num_bigint::BigInt, SssError>)
    requires
        2 <= base <= 36,
    ensures
        r is Ok <==> value@.len() > 0 && valid_digits(value@, base as int),
        r is Ok ==> big_value(r->Ok_0) == text_value(value@, base as int),
        value@.len() == 0 ==> r == Err::<num_bigint::BigInt, SssError>(SssError::EmptyInput),
        value@.len() > 0 && !valid_digits(value@, base as int) ==> r == Err::<
            num_bigint::BigInt,
            SssError,
        >(SssError::DigitOutOfRange),
{
    let n = value.unicode_len();
    if n == 0 {
        return Err(SssError::EmptyInput);
    }
    let base_big = big_from_u64(base as u64);
    let mut acc = big_from_u64(0);
    let mut i: usize = 0;
    while i < n
        invariant
            2 <= base <= 36,
            n == value@.len(),
            0 <= i <= n,
            big_value(base_big) == base as int,
            valid_digits(value@.take(i as int), base as int),
            big_value(acc) == text_value(value@.take(i as int), base as int),
        decreases n - i,
    {
        let c = value.get_char(i);
        let d = digit_of_char(c);
        if d >= base {
            assert(digit_value(value@[i as int]) >= base);
            return Err(SssError::DigitOutOfRange);
        }
        acc = big_add(&big_mul(&acc, &base_big), &big_from_u64(d as u64));
        proof {
            let prefix = value@.take(i as int);
            let next = value@.take(i + 1);
            assert(next =~= prefix.push(value@[i as int]));
            lemma_text_value_push(prefix, value@[i as int], base as int);
            assert forall|j: int| 0 <= j < next.len() implies digit_value(#[trigger] next[j])
                < base as int by {
                if j < i {
                    assert(digit_value(prefix[j]) < base as int);
                }
            }
        }
        i = i + 1;
    }
    proof {
        assert(value@.take(n as int) =~= value@);
    }
    Ok(acc)
}

/// Renders a non-negative value as a big-endian numeral in the given base;
/// a negative value is refused with `NegativeValue`.
///
/// The result is the canonical form: lower-case digits, no leading zero, and
/// the single digit `0` for the value zero.
pub fn convert_from_decimal(num: num_bigint::BigInt, base: u32) -> (r: Result<String, SssError>)
    requires
        2 <= base <= 36,
    ensures
        r is Ok <==> big_value(num) >= 0,
        big_value(num) < 0 ==> r == Err::<String, SssError>(SssError::NegativeValue),
        r is Ok ==> r->Ok_0@.len() > 0,
        r is Ok ==> valid_digits(r->Ok_0@, base as int),
        r is Ok ==> lower_digits(r->Ok_0@),
        r is Ok ==> text_value(r->Ok_0@, base as int) == big_value(num),
        r is Ok ==> (digit_value(r->Ok_0@[0]) == 0 ==> r->Ok_0@.len() == 1),
{
    let zero_big = big_from_u64(0);
    if big_lt(&num, &zero_big) {
        return Err(SssError::NegativeValue);
    }
    let mut out = String::new();
    if big_is_zero(&num) {
        out.push('0');
        proof {
            assert(out@ =~= seq!['0']);
            assert(seq!['0'].drop_last() =~= Seq::<char>::empty());
            assert(text_value(Seq::<char>::empty(), base as int) == 0);
            assert(digit_value('0') == 0);
            assert(text_value(out@, base as int) == 0 * (base as int) + 0);
            assert(digit_char(0) == '0');
        }
        return Ok(out);
    }
    let base_big = big_from_u64(base as u64);
    let mut little: Vec<char> = Vec::new();
    let ghost v0 = big_value(num);
    let mut cur = num;
    let ghost mut rcs: Seq<char> = Seq::empty();
    proof {
        lemma_pow0(base as int);
    }
    while !big_is_zero(&cur)
        invariant
            2 <= base <= 36,
            big_value(base_big) == base as int,
            big_value(cur) >= 0,
            rcs.len() == little@.len(),
            forall|j: int| 0 <= j < rcs.len() ==> #[trigger] little@[j] == rcs[rcs.len() - 1 - j],
            valid_digits(rcs, base as int),
            lower_digits(rcs),
            v0 == big_value(cur) * pow(base as int, rcs.len() as nat) + text_value(
                rcs,
                base as int,
            ),
            rcs.len() > 0 ==> (digit_value(rcs[0]) != 0 || big_value(cur) > 0),
        decreases big_value(cur),
    {
        let ghost c0 = big_value(cur);
        let d_big = big_rem(&cur, &base_big);
        proof {
            lemma_mod_bound(c0, base as int);
        }
        let d = big_to_u64(&d_big) as u32;
        let c = char_of_digit(d);
        let next = big_div(&cur, &base_big);
        proof {
            lemma_fundamental_div_mod(c0, base as int);
            lemma_digit_char_value(d as int);
            let old_rcs = rcs;
            rcs = seq![c] + rcs;
            assert(rcs[0] == c);
            assert(forall|j: int| 0 <= j < old_rcs.len() ==> #[trigger] old_rcs[j] == rcs[j + 1]);
            lemma_text_value_prepend(c, old_rcs, base as int);
            lemma_pow1(base as int);
            lemma_pow_adds(base as int, 1, old_rcs.len() as nat);
            assert(pow(base as int, rcs.len() as nat) == (base as int) * pow(
                base as int,
                old_rcs.len() as nat,
            ));
            // c0 == base * next + d shifts the tracked identity one place up.
            assert(c0 * pow(base as int, old_rcs.len() as nat) == big_value(next) * pow(
                base as int,
                rcs.len() as nat,
            ) + (d as int) * pow(base as int, old_rcs.len() as nat)) by (nonlinear_arith)
                requires
                    c0 == (base as int) * big_value(next) + d as int,
                    pow(base as int, rcs.len() as nat) == (base as int) * pow(
                        base as int,
                        old_rcs.len() as nat,
                    ),
            ;
            // The most significant digit is nonzero once the value runs out.
            if big_value(next) == 0 {
                lemma_small_mod(c0 as nat, base as nat);
            }
            lemma_div_is_strictly_smaller(c0, base as int);
        }
        little.push(c);
        cur = next;
    }
    let k = little.len();
    proof {
        assert(rcs.len() > 0);
        assert(v0 == 0 * pow(base as int, rcs.len() as nat) + text_value(rcs, base as int));
    }
    let mut j: usize = 0;
    while j < k
        invariant
            k == little@.len(),
            rcs.len() == k,
            forall|jj: int| 0 <= jj < rcs.len() ==> #[trigger] little@[jj] == rcs[rcs.len() - 1
                - jj],
            0 <= j <= k,
            out@ =~= rcs.take(j as int),
        decreases k - j,
    {
        let c = little[k - 1 - j];
        out.push(c);
        proof {
            assert(out@ =~= rcs.take(j + 1));
        }
        j = j + 1;
    }
    proof {
        assert(out@ =~= rcs);
    }
    Ok(out)
}

/// The base round trip: a digit string in canonical lower-case form that has
/// the value of `s` agrees with `s` once leading zeros are stripped from
/// both.  Together with the contracts of `convert_to_decimal` (which returns
/// the value of its input) and `convert_from_decimal` (which returns such a
/// canonical form), this is the round-trip law for the base codec.
pub proof fn lemma_base_round_trip(s: Seq<char>, t: Seq<char>, base: int)
    requires
        2 <= base <= 36,
        valid_digits(s, base),
        lower_digits(s),
        valid_digits(t, base),
        lower_digits(t),
        t.len() > 0,
        digit_value(t[0]) == 0 ==> t.len() == 1,
        text_value(t, base) == text_value(s, base),
    ensures
        strip_digits(t) =~= strip_digits(s),
{
    lemma_strip_digits(s, base);
    lemma_strip_digits(t, base);
    let sa = strip_digits(s);
    let ta = strip_digits(t);
    assert(valid_digits(sa, base));
    assert(valid_digits(ta, base));
    lemma_text_value_unique(sa, ta, base);
    assert forall|i: int| 0 <= i < ta.len() implies ta[i] == sa[i] by {
        assert(ta[i] == t[i + (t.len() - ta.len())]);
        assert(sa[i] == s[i + (s.len() - sa.len())]);
        assert(ta[i] == digit_char(digit_value(ta[i])));
        assert(sa[i] == digit_char(digit_value(sa[i])));
    }
    assert(ta =~= sa);
}

} // verus!
