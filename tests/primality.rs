use cryptomorph::bignum::BigNat;
use cryptomorph::primality::{is_probably_prime, miller_rabin_with_witnesses, miller_rabin_witness};

fn n(v: u64) -> BigNat {
    BigNat::from_u64(v)
}

#[test]
fn test_small_primes() {
    assert!(is_probably_prime(&n(3), 5));
    assert!(is_probably_prime(&n(13), 5));
}

#[test]
fn test_small_composites() {
    assert!(!is_probably_prime(&n(15), 5));
    assert!(!is_probably_prime(&n(221), 5));
}

#[test]
fn test_large_prime_candidate() {
    let p = n(32416190071);
    assert!(is_probably_prime(&p, 10));
}

#[test]
fn primality_edges() {
    assert!(is_probably_prime(&n(2), 5));
    assert!(!is_probably_prime(&n(0), 5));
    assert!(!is_probably_prime(&n(1), 5));
    assert!(!is_probably_prime(&n(4), 5));
    assert!(is_probably_prime(&n(5), 1));
    assert!(is_probably_prime(&n(15), 0));
}

#[test]
fn witness_rounds() {
    // 221 = 13 * 17: 174 is a strong liar, 137 is a witness
    assert!(miller_rabin_witness(&n(221), &n(174)));
    assert!(!miller_rabin_witness(&n(221), &n(137)));
    for a in 2..12u64 {
        assert!(miller_rabin_witness(&n(13), &n(a)));
    }
}

#[test]
fn rounds_with_given_witnesses() {
    let w = |v: &[u64]| v.iter().map(|&a| n(a)).collect::<Vec<BigNat>>();
    assert!(!miller_rabin_with_witnesses(&n(15), &w(&[2])));
    assert!(miller_rabin_with_witnesses(&n(15), &w(&[])));
    assert!(miller_rabin_with_witnesses(&n(221), &w(&[174])));
    assert!(!miller_rabin_with_witnesses(&n(221), &w(&[174, 137])));
    assert!(miller_rabin_with_witnesses(&n(13), &w(&[2, 5, 11])));
    assert!(miller_rabin_with_witnesses(&n(2), &w(&[])));
    assert!(!miller_rabin_with_witnesses(&n(8), &w(&[3])));
    assert!(!miller_rabin_with_witnesses(&n(1), &w(&[])));
}

#[test]
fn fifteen_always_fails() {
    for _ in 0..20 {
        assert!(!is_probably_prime(&n(15), 1));
    }
}
