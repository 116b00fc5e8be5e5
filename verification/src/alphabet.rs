//! Numerals over an arbitrary alphabet: an ordered sequence of unique
//! symbols defines a base-M system, the symbol at position `i` standing for
//! digit value `i`.

use vstd::prelude::*;
use vstd::arithmetic::div_mod::{lemma_div_is_strictly_smaller, lemma_fundamental_div_mod,
    lemma_fundamental_div_mod_converse, lemma_mod_bound, lemma_small_mod};
use vstd::arithmetic::mul::{lemma_mul_inequality, lemma_mul_nonnegative};
use vstd::arithmetic::power::{lemma_pow0, lemma_pow1, lemma_pow_adds, lemma_pow_positive, pow};
use crate::bignum::{big_add, big_clone, big_div, big_from_u64, big_is_zero, big_lt, big_mul,
    big_rem, big_to_u64, big_value};
use crate::error::SssError;

verus! {

/// A usable alphabet: at least two symbols, all different.
pub open spec fn alpha_wf(a: Seq<char>) -> bool {
    &&& a.len() >= 2
    &&& forall|i: int, j: int| #![trigger a[i], a[j]]
        0 <= i < a.len() && 0 <= j < a.len() && i != j ==> a[i] != a[j]
}

/// The symbol occurs in the alphabet.
pub open spec fn alpha_has(a: Seq<char>, c: char) -> bool {
    exists|i: int| 0 <= i < a.len() && a[i] == c
}

/// The digit value of a symbol: its position in the alphabet, or the
/// alphabet's length for a symbol not in it (never a valid digit).
pub open spec fn alpha_index(a: Seq<char>, c: char) -> int {
    if alpha_has(a, c) {
        choose|i: int| 0 <= i < a.len() && a[i] == c
    } else {
        a.len() as int
    }
}

/// Every character of the text is an alphabet symbol.
pub open spec fn valid_symbols(s: Seq<char>, a: Seq<char>) -> bool {
    forall|i: int| 0 <= i < s.len() ==> alpha_has(a, #[trigger] s[i])
}

/// Big-endian value of a symbol string in the alphabet's base.
pub open spec fn alpha_value(s: Seq<char>, a: Seq<char>) -> int
    decreases s.len(),
{
    if s.len() == 0 {
        0
    } else {
        alpha_value(s.drop_last(), a) * a.len() + alpha_index(a, s.last())
    }
}

/// Leading zero symbols (the alphabet's first symbol) removed.
pub open spec fn strip_symbols(s: Seq<char>, a: Seq<char>) -> Seq<char>
    decreases s.len(),
{
    if s.len() > 0 && alpha_index(a, s[0]) == 0 {
        strip_symbols(s.drop_first(), a)
    } else {
        s
    }
}

pub proof fn lemma_alpha_index_range(a: Seq<char>, c: char)
    requires
        alpha_has(a, c),
    ensures
        0 <= alpha_index(a, c) < a.len(),
        a[alpha_index(a, c)] == c,
{
}

pub proof fn lemma_alpha_index_of(a: Seq<char>, i: int)
    requires
        alpha_wf(a),
        0 <= i < a.len(),
    ensures
        alpha_has(a, a[i]),
        alpha_index(a, a[i]) == i,
{
    assert(alpha_has(a, a[i]));
    let j = choose|j: int| 0 <= j < a.len() && a[j] == a[i];
    assert(a[j] == a[i]);
    if j != i {
        assert(false);
    }
}

pub proof fn lemma_alpha_value_push(s: Seq<char>, c: char, a: Seq<char>)
    ensures
        alpha_value(s.push(c), a) == alpha_value(s, a) * a.len() + alpha_index(a, c),
{
    assert(s.push(c).drop_last() =~= s);
    assert(s.push(c).last() == c);
}

pub proof fn lemma_alpha_value_nonneg(s: Seq<char>, a: Seq<char>)
    requires
        a.len() >= 2,
    ensures
        alpha_value(s, a) >= 0,
    decreases s.len(),
{
    if s.len() > 0 {
        lemma_alpha_value_nonneg(s.drop_last(), a);
        lemma_mul_nonnegative(alpha_value(s.drop_last(), a), a.len() as int);
    }
}

/// Prepending a symbol adds its value at the highest place.
pub proof fn lemma_alpha_value_prepend(c: char, s: Seq<char>, a: Seq<char>)
    requires
        a.len() >= 1,
    ensures
        alpha_value(seq![c] + s, a) == alpha_index(a, c) * pow(a.len() as int, s.len() as nat)
            + alpha_value(s, a),
    decreases s.len(),
{
    let base = a.len() as int;
    if s.len() == 0 {
        assert(seq![c] + s =~= seq![c]);
        assert(seq![c].drop_last() =~= Seq::<char>::empty());
        assert(alpha_value(Seq::<char>::empty(), a) == 0);
        lemma_pow0(base);
    } else {
        let whole = seq![c] + s;
        assert(whole.drop_last() =~= seq![c] + s.drop_last());
        assert(whole.last() == s.last());
        lemma_alpha_value_prepend(c, s.drop_last(), a);
        let l1 = (s.len() - 1) as nat;
        lemma_pow1(base);
        lemma_pow_adds(base, 1, l1);
        assert(pow(base, s.len() as nat) == base * pow(base, l1));
        let d = alpha_index(a, c);
        let rest = alpha_value(s.drop_last(), a);
        assert((d * pow(base, l1) + rest) * base == d * (base * pow(base, l1)) + rest * base)
            by (nonlinear_arith);
    }
}

/// A string whose first symbol is not the zero symbol is worth at least one.
pub proof fn lemma_alpha_value_first_pos(s: Seq<char>, a: Seq<char>)
    requires
        a.len() >= 2,
        valid_symbols(s, a),
        s.len() > 0,
        alpha_index(a, s[0]) >= 1,
    ensures
        alpha_value(s, a) >= pow(a.len() as int, (s.len() - 1) as nat),
        alpha_value(s, a) >= 1,
    decreases s.len(),
{
    let base = a.len() as int;
    lemma_pow_positive(base, (s.len() - 1) as nat);
    if s.len() == 1 {
        assert(s.drop_last() =~= Seq::<char>::empty());
        lemma_pow0(base);
        lemma_alpha_index_range(a, s[0]);
        assert(s.last() == s[0]);
    } else {
        assert(s.drop_last()[0] == s[0]);
        lemma_alpha_value_first_pos(s.drop_last(), a);
        let l2 = (s.len() - 2) as nat;
        lemma_pow_positive(base, l2);
        lemma_mul_inequality(pow(base, l2), alpha_value(s.drop_last(), a), base);
        lemma_pow1(base);
        lemma_pow_adds(base, l2, 1);
        assert(pow(base, (s.len() - 1) as nat) == pow(base, l2) * base);
        lemma_alpha_index_range(a, s.last());
    }
}

/// Dropping a leading zero symbol does not change the value.
pub proof fn lemma_alpha_drop_leading_zero(s: Seq<char>, a: Seq<char>)
    requires
        s.len() > 0,
        alpha_index(a, s[0]) == 0,
    ensures
        alpha_value(s, a) == alpha_value(s.drop_first(), a),
    decreases s.len(),
{
    if s.len() == 1 {
        assert(s.drop_last() =~= Seq::<char>::empty());
        assert(s.drop_first() =~= Seq::<char>::empty());
        assert(s.last() == s[0]);
    } else {
        lemma_alpha_drop_leading_zero(s.drop_last(), a);
        assert(s.drop_last().drop_first() =~= s.drop_first().drop_last());
        assert(s.drop_first().last() == s.last());
    }
}

/// Stripping leading zero symbols keeps the value, leaves no leading zero
/// symbol, and returns a suffix.
pub proof fn lemma_strip_symbols(s: Seq<char>, a: Seq<char>)
    ensures
        alpha_value(strip_symbols(s, a), a) == alpha_value(s, a),
        strip_symbols(s, a).len() > 0 ==> alpha_index(a, strip_symbols(s, a)[0]) != 0,
        strip_symbols(s, a) =~= s.skip(s.len() - strip_symbols(s, a).len()),
        strip_symbols(s, a).len() <= s.len(),
    decreases s.len(),
{
    if s.len() > 0 && alpha_index(a, s[0]) == 0 {
        lemma_alpha_drop_leading_zero(s, a);
        lemma_strip_symbols(s.drop_first(), a);
        let st = strip_symbols(s, a);
        assert(s.drop_first() =~= s.skip(1));
        assert(s.skip(1).skip(s.skip(1).len() - st.len()) =~= s.skip(s.len() - st.len()));
    }
}

/// Two symbol strings without leading zero symbols and with the same value
/// are the same string.
pub proof fn lemma_alpha_value_unique(s: Seq<char>, t: Seq<char>, a: Seq<char>)
    requires
        alpha_wf(a),
        valid_symbols(s, a),
        valid_symbols(t, a),
        s.len() > 0 ==> alpha_index(a, s[0]) != 0,
        t.len() > 0 ==> alpha_index(a, t[0]) != 0,
        alpha_value(s, a) == alpha_value(t, a),
    ensures
        s =~= t,
    decreases s.len() + t.len(),
{
    let base = a.len() as int;
    if s.len() == 0 {
        if t.len() > 0 {
            lemma_alpha_index_range(a, t[0]);
            lemma_alpha_value_first_pos(t, a);
        }
    } else if t.len() == 0 {
        lemma_alpha_index_range(a, s[0]);
        lemma_alpha_value_first_pos(s, a);
    } else {
        let v = alpha_value(s, a);
        lemma_alpha_value_nonneg(s.drop_last(), a);
        lemma_alpha_value_nonneg(t.drop_last(), a);
        lemma_alpha_index_range(a, s.last());
        lemma_alpha_index_range(a, t.last());
        lemma_fundamental_div_mod_converse(
            v,
            base,
            alpha_value(s.drop_last(), a),
            alpha_index(a, s.last()),
        );
        lemma_fundamental_div_mod_converse(
            v,
            base,
            alpha_value(t.drop_last(), a),
            alpha_index(a, t.last()),
        );
        if s.len() > 1 {
            assert(s.drop_last()[0] == s[0]);
        }
        if t.len() > 1 {
            assert(t.drop_last()[0] == t[0]);
        }
        lemma_alpha_value_unique(s.drop_last(), t.drop_last(), a);
        assert(a[alpha_index(a, s.last())] == s.last());
        assert(a[alpha_index(a, t.last())] == t.last());
        assert(s.last() == t.last());
        assert(s =~= s.drop_last().push(s.last()));
        assert(t =~= t.drop_last().push(t.last()));
    }
}

/// The position of a symbol in the alphabet, scanned left to right.
fn find_symbol(alphabet: &[char], c: char) -> (r: Option<usize>)
    requires
        alpha_wf(alphabet@),
    ensures
        r is Some <==> alpha_has(alphabet@, c),
        r is Some ==> r->0 as int == alpha_index(alphabet@, c),
{
    let mut i: usize = 0;
    while i < alphabet.len()
        invariant
            alpha_wf(alphabet@),
            0 <= i <= alphabet@.len(),
            forall|j: int| 0 <= j < i ==> alphabet@[j] != c,
        decreases alphabet@.len() - i,
    {
        if alphabet[i] == c {
            proof {
                lemma_alpha_index_of(alphabet@, i as int);
            }
            return Some(i);
        }
        i = i + 1;
    }
    None
}

/// Reads `text` as a big-endian numeral over the alphabet.
///
/// Returns exactly the value of the symbol string; an empty string is
/// refused with `EmptyInput`, and a character not in the alphabet with
/// `InvalidSymbol`.
pub fn symbol_to_int(text: &str, alphabet: &[char]) -> (r: Result<num_bigint::BigInt, SssError>)
    requires
        alpha_wf(alphabet@),
    ensures
        r is Ok <==> text@.len() > 0 && valid_symbols(text@, alphabet@),
        r is Ok ==> big_value(r->Ok_0) == alpha_value(text@, alphabet@),
        text@.len() == 0 ==> r == Err::<num_bigint::BigInt, SssError>(SssError::EmptyInput),
        text@.len() > 0 && !valid_symbols(text@, alphabet@) ==> r == Err::<
            num_bigint::BigInt,
            SssError,
        >(SssError::InvalidSymbol),
{
    let n = text.unicode_len();
    if n == 0 {
        return Err(SssError::EmptyInput);
    }
    let base_big = big_from_u64(alphabet.len() as u64);
    let mut acc = big_from_u64(0);
    let mut i: usize = 0;
    while i < n
        invariant
            alpha_wf(alphabet@),
            n == text@.len(),
            0 <= i <= n,
            big_value(base_big) == alphabet@.len() as int,
            valid_symbols(text@.take(i as int), alphabet@),
            big_value(acc) == alpha_value(text@.take(i as int), alphabet@),
        decreases n - i,
    {
        let c = text.get_char(i);
        let d = match find_symbol(alphabet, c) {
            Some(d) => d,
            None => {
                assert(!alpha_has(alphabet@, text@[i as int]));
                return Err(SssError::InvalidSymbol);
            },
        };
        acc = big_add_digit(&acc, &base_big, d as u64);
        proof {
            let prefix = text@.take(i as int);
            let next = text@.take(i + 1);
            assert(next =~= prefix.push(text@[i as int]));
            lemma_alpha_value_push(prefix, text@[i as int], alphabet@);
            assert forall|j: int| 0 <= j < next.len() implies alpha_has(
                alphabet@,
                #[trigger] next[j],
            ) by {
                if j < i {
                    assert(alpha_has(alphabet@, prefix[j]));
                }
            }
        }
        i = i + 1;
    }
    proof {
        assert(text@.take(n as int) =~= text@);
    }
    Ok(acc)
}

/// One Horner step: `acc * base + d`.
fn big_add_digit(acc: &num_bigint::BigInt, base_big: &num_bigint::BigInt, d: u64) -> (r:
    num_bigint::BigInt)
    ensures
        big_value(r) == big_value(*acc) * big_value(*base_big) + d as int,
{
    big_add(&big_mul(acc, base_big), &big_from_u64(d))
}

/// Renders a non-negative value as a big-endian numeral over the alphabet.
///
/// The result is canonical: no leading zero symbol, and the alphabet's first
/// symbol alone for the value zero.  A negative value is refused with
/// `NegativeValue`.
pub fn int_to_symbol(value: &num_bigint::BigInt, alphabet: &[char]) -> (r: Result<String, SssError>)
    requires
        alpha_wf(alphabet@),
    ensures
        r is Ok <==> big_value(*value) >= 0,
        big_value(*value) < 0 ==> r == Err::<String, SssError>(SssError::NegativeValue),
        r is Ok ==> {
            &&& r->Ok_0@.len() > 0
            &&& valid_symbols(r->Ok_0@, alphabet@)
            &&& alpha_value(r->Ok_0@, alphabet@) == big_value(*value)
            &&& (alpha_index(alphabet@, r->Ok_0@[0]) == 0 ==> r->Ok_0@.len() == 1)
        },
{
    let ghost a = alphabet@;
    let base = alphabet.len();
    let zero = big_from_u64(0);
    if big_lt(value, &zero) {
        return Err(SssError::NegativeValue);
    }
    let mut out = String::new();
    if big_is_zero(value) {
        out.push(alphabet[0]);
        proof {
            lemma_alpha_index_of(a, 0);
            assert(out@ =~= seq![a[0]]);
            assert(out@.drop_last() =~= Seq::<char>::empty());
            assert(alpha_value(Seq::<char>::empty(), a) == 0);
            assert(out@.last() == a[0]);
        }
        return Ok(out);
    }
    let base_big = big_from_u64(base as u64);
    let mut little: Vec<char> = Vec::new();
    let ghost v0 = big_value(*value);
    let mut cur = big_clone(value);
    let ghost mut rcs: Seq<char> = Seq::empty();
    proof {
        lemma_pow0(a.len() as int);
    }
    while !big_is_zero(&cur)
        invariant
            alpha_wf(a),
            a == alphabet@,
            base == a.len(),
            big_value(base_big) == a.len() as int,
            big_value(cur) >= 0,
            rcs.len() == little@.len(),
            forall|j: int| 0 <= j < rcs.len() ==> #[trigger] little@[j] == rcs[rcs.len() - 1 - j],
            valid_symbols(rcs, a),
            v0 == big_value(cur) * pow(a.len() as int, rcs.len() as nat) + alpha_value(rcs, a),
            rcs.len() > 0 ==> (alpha_index(a, rcs[0]) != 0 || big_value(cur) > 0),
        decreases big_value(cur),
    {
        let ghost c0 = big_value(cur);
        let d_big = big_rem(&cur, &base_big);
        proof {
            lemma_mod_bound(c0, a.len() as int);
        }
        let d = big_to_u64(&d_big) as usize;
        let c = alphabet[d];
        let next = big_div(&cur, &base_big);
        proof {
            lemma_fundamental_div_mod(c0, a.len() as int);
            lemma_alpha_index_of(a, d as int);
            let old_rcs = rcs;
            rcs = seq![c] + rcs;
            assert(rcs[0] == c);
            assert(forall|j: int| 0 <= j < old_rcs.len() ==> #[trigger] old_rcs[j] == rcs[j + 1]);
            lemma_alpha_value_prepend(c, old_rcs, a);
            lemma_pow1(a.len() as int);
            lemma_pow_adds(a.len() as int, 1, old_rcs.len() as nat);
            assert(pow(a.len() as int, rcs.len() as nat) == (a.len() as int) * pow(
                a.len() as int,
                old_rcs.len() as nat,
            ));
            assert(c0 * pow(a.len() as int, old_rcs.len() as nat) == big_value(next) * pow(
                a.len() as int,
                rcs.len() as nat,
            ) + (d as int) * pow(a.len() as int, old_rcs.len() as nat)) by (nonlinear_arith)
                requires
                    c0 == (a.len() as int) * big_value(next) + d as int,
                    pow(a.len() as int, rcs.len() as nat) == (a.len() as int) * pow(
                        a.len() as int,
                        old_rcs.len() as nat,
                    ),
            ;
            if big_value(next) == 0 {
                assert((a.len() as int) * big_value(next) == 0) by (nonlinear_arith)
                    requires
                        big_value(next) == 0,
                ;
                assert(c0 < a.len() as int);
                lemma_small_mod(c0 as nat, a.len() as nat);
            }
            lemma_div_is_strictly_smaller(c0, a.len() as int);
        }
        little.push(c);
        cur = next;
    }
    let k = little.len();
    proof {
        assert(rcs.len() > 0);
        assert(v0 == 0 * pow(a.len() as int, rcs.len() as nat) + alpha_value(rcs, a));
    }
    let mut j: usize = 0;
    while j < k
        invariant
            k == little@.len(),
            rcs.len() == k,
            forall|jj: int| 0 <= jj < rcs.len() ==> #[trigger] little@[jj] == rcs[rcs.len() - 1
                - jj],
            0 <= j <= k,
            out@ =~= rcs.take(j as int),
        decreases k - j,
    {
        let c = little[k - 1 - j];
        out.push(c);
        proof {
            assert(out@ =~= rcs.take(j + 1));
        }
        j = j + 1;
    }
    proof {
        assert(out@ =~= rcs);
    }
    Ok(out)
}

/// The alphabet round trip: a canonical symbol string with the value of `s`
/// agrees with `s` once leading zero symbols are stripped from both.
/// Together with the contracts of `symbol_to_int` (which returns the value
/// of its input) and `int_to_symbol` (which returns such a canonical form),
/// this is the round-trip law for the alphabet codec.
pub proof fn lemma_symbol_round_trip(s: Seq<char>, t: Seq<char>, a: Seq<char>)
    requires
        alpha_wf(a),
        valid_symbols(s, a),
        valid_symbols(t, a),
        t.len() > 0,
        alpha_index(a, t[0]) == 0 ==> t.len() == 1,
        alpha_value(t, a) == alpha_value(s, a),
    ensures
        strip_symbols(t, a) =~= strip_symbols(s, a),
{
    lemma_strip_symbols(s, a);
    lemma_strip_symbols(t, a);
    let sa = strip_symbols(s, a);
    let ta = strip_symbols(t, a);
    assert(valid_symbols(sa, a));
    assert(valid_symbols(ta, a));
    lemma_alpha_value_unique(sa, ta, a);
}

} // verus!
