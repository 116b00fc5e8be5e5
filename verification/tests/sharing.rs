use num_bigint::BigInt;
use num_traits::Zero;
use shamir::codec::convert_from_decimal;
use shamir::rational::Rational;
use shamir::interp::generate_secret;
use shamir::shamir::{decode_share, encode_share, generate_shares, reconstruct_secret};
use shamir::field::{big_mod_euclid, mod_inverse};
use shamir::shares::{parse_shares, recover_secret, recover_secret_mod, Share, ShareEntry};
use shamir::SssError;

fn gcd(a: &BigInt, b: &BigInt) -> BigInt {
    let mut a = if a < &BigInt::zero() { -a } else { a.clone() };
    let mut b = if b < &BigInt::zero() { -b } else { b.clone() };
    while !b.is_zero() {
        let t = b.clone();
        b = &a % &b;
        a = t;
    }
    a
}

fn assert_reduced(r: &Rational) {
    assert!(r.den > BigInt::zero());
    assert_eq!(gcd(&r.num, &r.den), BigInt::from(1u32));
}

#[test]
fn rational_reduction_invariant() {
    let q = Rational::new(BigInt::from(4u32), BigInt::from(6u32)).unwrap();
    assert_eq!(q.num, BigInt::from(2u32));
    assert_eq!(q.den, BigInt::from(3u32));
    let s = Rational::new(BigInt::from(1u32), BigInt::from(-2i32)).unwrap();
    assert_eq!(s.num, BigInt::from(-1i32));
    assert_eq!(s.den, BigInt::from(2u32));
    let half = Rational::new(BigInt::from(1u32), BigInt::from(2u32)).unwrap();
    let third = Rational::new(BigInt::from(1u32), BigInt::from(3u32)).unwrap();
    let sum = half.add(&third);
    assert_eq!(sum.num, BigInt::from(5u32));
    assert_eq!(sum.den, BigInt::from(6u32));
    assert_reduced(&sum);
    let two_thirds = Rational::new(BigInt::from(2u32), BigInt::from(3u32)).unwrap();
    let three_quarters = Rational::new(BigInt::from(3u32), BigInt::from(4u32)).unwrap();
    let product = two_thirds.mul(&three_quarters);
    assert_eq!(product.num, BigInt::from(1u32));
    assert_eq!(product.den, BigInt::from(2u32));
    assert_reduced(&product);
}

#[test]
fn rational_zero_denominator_is_refused() {
    let r = Rational::new(BigInt::from(1u32), BigInt::zero());
    assert!(matches!(r, Err(SssError::DivisionByZero)));
}

#[test]
fn interpolation_exact_line() {
    // Points of y = 3 + 2x: the constant term comes back.
    let x = vec![BigInt::from(1u32), BigInt::from(2u32)];
    let y = vec![BigInt::from(5u32), BigInt::from(7u32)];
    assert_eq!(generate_secret(&x, &y, 2).unwrap(), BigInt::from(3u32));
}

#[test]
fn interpolation_inconsistent_points() {
    // (1, 0) and (3, 1) interpolate to -1/2 at zero: not an integer.
    let x = vec![BigInt::from(1u32), BigInt::from(3u32)];
    let y = vec![BigInt::from(0u32), BigInt::from(1u32)];
    assert_eq!(generate_secret(&x, &y, 2), Err(SssError::InconsistentShares));
}

fn container_entries(json: &str) -> (Vec<ShareEntry>, usize, usize) {
    let data: serde_json::Value = serde_json::from_str(json).unwrap();
    let n = data["keys"]["n"].as_u64().unwrap() as usize;
    let k = data["keys"]["k"].as_u64().unwrap() as usize;
    let mut entries = Vec::new();
    for i in 1..=n {
        let key = i.to_string();
        if let Some(share) = data.get(&key) {
            entries.push(ShareEntry {
                index: i,
                base: share["base"].as_str().unwrap().parse::<u32>().unwrap(),
                value: share["value"].as_str().unwrap().to_string(),
            });
        }
    }
    (entries, n, k)
}

#[test]
fn test_share_recovery() {
    let json_input = r#"{
        "keys": {"n": 3, "k": 2},
        "1": {"base": "16", "value": "ff"},
        "2": {"base": "16", "value": "1fe"},
        "3": {"base": "16", "value": "2fd"}
    }"#;

    let (entries, n, k) = container_entries(json_input);
    let shares = parse_shares(&entries, n);
    assert_eq!(shares.len(), 3);
    let secret = recover_secret(&shares, k).unwrap();

    let hex_secret = convert_from_decimal(secret, 16).unwrap();
    assert_eq!(hex_secret, "0");
}

#[test]
fn parse_shares_skips_missing_and_bad_entries() {
    let entries = vec![
        ShareEntry { index: 1, base: 16, value: "ff".to_string() },
        ShareEntry { index: 3, base: 16, value: "zz".to_string() },
        ShareEntry { index: 4, base: 99, value: "10".to_string() },
        ShareEntry { index: 5, base: 10, value: "42".to_string() },
    ];
    let shares = parse_shares(&entries, 5);
    assert_eq!(shares.len(), 2);
    assert_eq!(shares[0].x, BigInt::from(1u32));
    assert_eq!(shares[0].y, BigInt::from(255u32));
    assert_eq!(shares[1].x, BigInt::from(5u32));
    assert_eq!(shares[1].y, BigInt::from(42u32));
}

#[test]
fn recover_secret_needs_enough_shares() {
    let entries = vec![ShareEntry { index: 1, base: 16, value: "ff".to_string() }];
    let shares = parse_shares(&entries, 1);
    assert_eq!(recover_secret(&shares, 2), Err(SssError::InsufficientShares));
}

fn hex_alphabet() -> Vec<char> {
    "0123456789abcdef".chars().collect()
}

fn alnum_alphabet() -> Vec<char> {
    "0123456789abcdefghijklmnopqrstuvwxyz".chars().collect()
}

fn big_ten_pow(e: usize) -> BigInt {
    let mut p = BigInt::from(1u32);
    for _ in 0..e {
        p = p * BigInt::from(10u32);
    }
    p
}

#[test]
fn share_string_round_trip() {
    let a = hex_alphabet();
    let s = encode_share(&BigInt::from(3u32), &BigInt::from(765u32), &a);
    assert_eq!(s, "3-2fd");
    let (x, y) = decode_share(&s, &a).unwrap();
    assert_eq!(x, BigInt::from(3u32));
    assert_eq!(y, BigInt::from(765u32));
}

#[test]
fn decode_share_rejects_malformed() {
    let a = hex_alphabet();
    assert_eq!(decode_share("2fd", &a), Err(SssError::MalformedShare));
    assert_eq!(decode_share("-2fd", &a), Err(SssError::MalformedShare));
    assert_eq!(decode_share("3-", &a), Err(SssError::MalformedShare));
    assert_eq!(decode_share("3-2-fd", &a), Err(SssError::MalformedShare));
    assert_eq!(decode_share("0-2fd", &a), Err(SssError::MalformedShare));
    assert_eq!(decode_share("3-2fz", &a), Err(SssError::MalformedShare));
}

#[test]
fn threshold_bounds_are_checked() {
    let a = hex_alphabet();
    let prime = big_ten_pow(40);
    assert_eq!(
        generate_shares("ff", 1, 3, &a, &prime, &[]),
        Err(SssError::ThresholdTooLow)
    );
    let coeffs = vec![BigInt::from(7u32), BigInt::from(9u32), BigInt::from(11u32)];
    assert_eq!(
        generate_shares("ff", 4, 3, &a, &prime, &coeffs),
        Err(SssError::ThresholdTooHigh)
    );
}

#[test]
fn threshold_correctness_generate_then_reconstruct() {
    // Secret "ff" in hex, threshold 2 of 3; the prime is far above every
    // intermediate value, so exact reconstruction recovers the secret from
    // any two shares, and one share is refused.
    let a = hex_alphabet();
    let prime = big_ten_pow(40);
    let coeffs = vec![BigInt::from(7u32)];
    let shares = generate_shares("ff", 2, 3, &a, &prime, &coeffs).unwrap();
    assert_eq!(shares.len(), 3);
    for pair in [[0, 1], [0, 2], [1, 2]] {
        let subset = vec![shares[pair[0]].clone(), shares[pair[1]].clone()];
        assert_eq!(reconstruct_secret(&subset, 2, &a).unwrap(), "ff");
    }
    let one_share = vec![shares[0].clone()];
    assert_eq!(
        reconstruct_secret(&one_share, 2, &a),
        Err(SssError::InsufficientShares)
    );
}

#[test]
fn supersecretmessage_round_trip() {
    let a = alnum_alphabet();
    let prime = big_ten_pow(40);
    let coeffs = vec![BigInt::from(123456789u64), BigInt::from(987654321u64)];
    let shares = generate_shares("supersecretmessage", 3, 8, &a, &prime, &coeffs).unwrap();
    assert_eq!(shares.len(), 8);
    let first = vec![shares[0].clone(), shares[1].clone(), shares[2].clone()];
    assert_eq!(reconstruct_secret(&first, 3, &a).unwrap(), "supersecretmessage");
    let middle = vec![shares[3].clone(), shares[4].clone(), shares[5].clone()];
    assert_eq!(reconstruct_secret(&middle, 3, &a).unwrap(), "supersecretmessage");
}

#[test]
fn reconstruct_rejects_negative_secret() {
    // (1, 0) and (2, 1) interpolate to -1 at zero.
    let a = hex_alphabet();
    let s1 = encode_share(&BigInt::from(1u32), &BigInt::from(0u32), &a);
    let s2 = encode_share(&BigInt::from(2u32), &BigInt::from(1u32), &a);
    assert_eq!(
        reconstruct_secret(&vec![s1, s2], 2, &a),
        Err(SssError::NegativeValue)
    );
}

#[test]
fn reconstruct_rejects_duplicate_points() {
    let a = hex_alphabet();
    let s1 = encode_share(&BigInt::from(1u32), &BigInt::from(5u32), &a);
    let s2 = encode_share(&BigInt::from(1u32), &BigInt::from(6u32), &a);
    assert_eq!(
        reconstruct_secret(&vec![s1, s2], 2, &a),
        Err(SssError::InconsistentShares)
    );
}

fn shares_from_strings(encoded: &[String], alphabet: &[char]) -> Vec<Share> {
    encoded
        .iter()
        .map(|s| {
            let (x, y) = decode_share(s, alphabet).unwrap();
            Share { base: 16, value: s.clone(), x, y }
        })
        .collect()
}

#[test]
fn field_mode_recovers_under_reduction() {
    // A real prime field small enough that evaluations wrap around.
    let a = hex_alphabet();
    let prime = BigInt::from(257u32);
    let coeffs = vec![BigInt::from(123u32)];
    let encoded = generate_shares("ff", 2, 3, &a, &prime, &coeffs).unwrap();
    let shares = shares_from_strings(&encoded, &a);
    let secret = recover_secret_mod(&shares, 2, Some(&prime)).unwrap();
    assert_eq!(secret, BigInt::from(255u32));
    // Exact mode cannot see through the reduction here; field mode must.
}

#[test]
fn mode_equivalence_when_prime_dominates() {
    // With a prime above every magnitude involved no reduction happens, and
    // the two modes agree exactly.
    let a = hex_alphabet();
    let prime = big_ten_pow(40);
    let coeffs = vec![BigInt::from(7u32), BigInt::from(11u32)];
    let encoded = generate_shares("abc123", 3, 5, &a, &prime, &coeffs).unwrap();
    let shares = shares_from_strings(&encoded, &a);
    let exact = recover_secret(&shares, 3).unwrap();
    let field = recover_secret_mod(&shares, 3, Some(&prime)).unwrap();
    assert_eq!(exact, field);
    assert_eq!(reconstruct_secret(&encoded, 3, &a).unwrap(), "abc123");
}

#[test]
fn field_mode_requires_a_modulus() {
    let a = hex_alphabet();
    let s1 = encode_share(&BigInt::from(1u32), &BigInt::from(5u32), &a);
    let shares = shares_from_strings(&[s1], &a);
    assert_eq!(
        recover_secret_mod(&shares, 1, None),
        Err(SssError::ModulusNotSet)
    );
}

#[test]
fn modular_inverse_and_euclidean_remainder() {
    assert_eq!(
        mod_inverse(&BigInt::from(3u32), &BigInt::from(7u32)),
        Some(BigInt::from(5u32))
    );
    assert_eq!(mod_inverse(&BigInt::from(2u32), &BigInt::from(4u32)), None);
    assert_eq!(mod_inverse(&BigInt::from(0u32), &BigInt::from(7u32)), None);
    assert_eq!(
        big_mod_euclid(&BigInt::from(-5i32), &BigInt::from(3u32)),
        BigInt::from(1u32)
    );
    assert_eq!(
        big_mod_euclid(&BigInt::from(-6i32), &BigInt::from(3u32)),
        BigInt::from(0u32)
    );
}

#[test]
fn field_mode_division_failure() {
    // Points (1, 0) and (3, 1) interpolate to -1/2; under the modulus 4 the
    // denominator 2 has no inverse.
    let a = hex_alphabet();
    let s1 = encode_share(&BigInt::from(1u32), &BigInt::from(0u32), &a);
    let s2 = encode_share(&BigInt::from(3u32), &BigInt::from(1u32), &a);
    let shares = shares_from_strings(&[s1, s2], &a);
    assert_eq!(
        recover_secret_mod(&shares, 2, Some(&BigInt::from(4u32))),
        Err(SssError::DivisionByZero)
    );
}
