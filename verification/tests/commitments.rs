use shamir::commit::{commit, generate_commitments, mod_exp, G, P};

/// Direct exponentiation oracle: multiply `exp` times, reducing each step.
fn naive_mod_exp(base: u128, exp: u64, modulus: u128) -> u128 {
    let mut acc: u128 = 1 % modulus;
    for _ in 0..exp {
        acc = acc * (base % modulus) % modulus;
    }
    acc
}

#[test]
fn mod_exp_small_values() {
    assert_eq!(mod_exp(3, 5, 7), 5); // 243 mod 7
    assert_eq!(mod_exp(2, 10, 1000), 24);
    assert_eq!(mod_exp(5, 0, 13), 1);
    assert_eq!(mod_exp(0, 5, 13), 0);
}

#[test]
fn commitment_determinism_against_oracle() {
    // The largest prime below 2^64, and a smaller one.
    let primes: [u64; 2] = [18446744073709551557, 1000003];
    let coefficients: [i128; 5] = [0, 1, 2, 9999, 10000];
    for &p in primes.iter() {
        for &c in coefficients.iter() {
            let direct = naive_mod_exp(3, c as u64, p as u128);
            assert_eq!(mod_exp(3, c, p as i128) as u128, direct);
        }
    }
}

#[test]
fn commit_is_mod_exp_per_coefficient() {
    let coefficients: Vec<i128> = vec![3, 5, 2];
    let commitments = commit(&coefficients, 3, 1000003);
    assert_eq!(commitments.len(), 3);
    for (i, &c) in coefficients.iter().enumerate() {
        assert_eq!(commitments[i], mod_exp(3, c, 1000003));
    }
}

#[test]
fn generate_commitments_uses_scheme_constants() {
    let poly: Vec<i128> = vec![3, 5, 2];
    let commitments = generate_commitments(&poly);
    assert_eq!(commitments.len(), 3);
    for (i, &c) in poly.iter().enumerate() {
        assert_eq!(commitments[i], mod_exp(G, c, P));
    }
    assert_eq!(commitments[0], 27);
}
