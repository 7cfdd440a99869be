use cryptomorph::bignum::{BigNat, BigSigned};
use cryptomorph::modular_arith::{mod_exp, ArithmeticError};
use cryptomorph::number_theory::{extended_gcd, gcd, is_coprime, lcm, mod_inverse, totient};
use num_bigint::{BigInt, BigUint, Sign};
use num_traits::One;

fn n(v: u64) -> BigNat {
    BigNat::from_u64(v)
}

fn to_big(x: &BigNat) -> BigUint {
    BigUint::new(x.limbs.clone())
}

fn to_signed(x: &BigSigned) -> BigInt {
    let sign = if x.negative { Sign::Minus } else { Sign::Plus };
    BigInt::from_biguint(sign, to_big(&x.magnitude))
}

#[test]
fn test_small_numbers() {
    assert_eq!(mod_exp(n(4), n(13), &n(497)).unwrap(), n(445));
}

#[test]
fn test_large_exponent() {
    let modulus = n(97);
    let result = mod_exp(n(2), n(1024), &modulus).unwrap();
    assert!(result.less_than(&modulus));
}

#[test]
fn mod_exp_exact_values() {
    // 2^1024 mod 97: 2^48 = 1 (mod 97), 1024 = 21 * 48 + 16, 2^16 mod 97 = 61
    assert_eq!(mod_exp(n(2), n(1024), &n(97)).unwrap(), n(61));
    assert_eq!(mod_exp(n(5), n(0), &n(7)).unwrap(), n(1));
    assert_eq!(mod_exp(n(5), n(0), &n(1)).unwrap(), n(0));
    assert_eq!(mod_exp(n(1000), n(3), &n(7)).unwrap(), n(6));
}

#[test]
fn mod_exp_zero_modulus() {
    assert_eq!(mod_exp(n(4), n(13), &n(0)), Err(ArithmeticError::InvalidModulus));
}

#[test]
fn test_gcd_small() {
    assert_eq!(gcd(n(12), n(8)), n(4));
    assert_eq!(gcd(n(17), n(31)), n(1));
}

#[test]
fn gcd_with_zero() {
    assert_eq!(gcd(n(12), n(0)), n(12));
    assert_eq!(gcd(n(0), n(9)), n(9));
}

#[test]
fn test_extended_gcd() {
    let a = n(240);
    let b = n(46);
    let (g, x, y) = extended_gcd(&a, &b);
    let lhs = BigInt::from(to_big(&a)) * to_signed(&x) + BigInt::from(to_big(&b)) * to_signed(&y);
    assert_eq!(lhs, BigInt::from(to_big(&g)));
    assert_eq!(g, n(2));
}

#[test]
fn extended_gcd_coefficients() {
    // 240 * -9 + 46 * 47 = 2
    let (g, x, y) = extended_gcd(&n(240), &n(46));
    assert_eq!(to_signed(&x), BigInt::from(-9));
    assert_eq!(to_signed(&y), BigInt::from(47));
    assert_eq!(g, n(2));
}

#[test]
fn test_mod_inverse() {
    let a = n(3);
    let m = n(11);
    let inv = mod_inverse(&a, &m).unwrap();
    assert_eq!((to_big(&a) * to_big(&inv)) % to_big(&m), BigUint::one());

    let a = n(6);
    let m = n(9);
    assert!(mod_inverse(&a, &m).is_none());
}

#[test]
fn mod_inverse_exact() {
    assert_eq!(mod_inverse(&n(3), &n(11)).unwrap(), n(4));
    // x from the extended algorithm is negative here: 7 * -2 + 15 * 1 = 1
    assert_eq!(mod_inverse(&n(7), &n(15)).unwrap(), n(13));
    assert!(mod_inverse(&n(5), &n(0)).is_none());
}

#[test]
fn test_lcm_and_coprime() {
    let a = n(12);
    let b = n(15);
    assert!(is_coprime(&n(7), &n(20)));
    assert_eq!(lcm(&a, &b).unwrap(), n(60));
}

#[test]
fn lcm_and_coprime_edges() {
    assert!(!is_coprime(&n(6), &n(9)));
    assert_eq!(lcm(&n(0), &n(0)), Err(ArithmeticError::DivisionByZero));
    assert_eq!(lcm(&n(0), &n(5)).unwrap(), n(0));
}

#[test]
fn big_values_cross_limbs() {
    let a = n(0xffff_ffff_ffff_ffff);
    let r = mod_exp(a.clone(), n(2), &n(0x1_0000_0001)).unwrap();
    let expected = (to_big(&a) * to_big(&a)) % BigUint::from(0x1_0000_0001u64);
    assert_eq!(to_big(&r), expected);
}

#[test]
fn test_totient() {
    assert_eq!(totient(&n(1)), n(1));
    assert_eq!(totient(&n(9)), n(6));
    assert_eq!(totient(&n(10)), n(4));
}

#[test]
fn totient_more_values() {
    assert_eq!(totient(&n(0)), n(0));
    assert_eq!(totient(&n(2)), n(1));
    assert_eq!(totient(&n(12)), n(4));
    assert_eq!(totient(&n(97)), n(96));
    assert_eq!(totient(&n(1024)), n(512));
    assert_eq!(totient(&n(3233)), n(3120));
    assert_eq!(totient(&n(36)), n(12));
}

#[test]
fn bezout_coefficient_bounds() {
    for (a, b) in [(240u64, 46u64), (46, 240), (17, 31), (12, 8), (1, 1), (1000, 1)] {
        let (g, x, y) = extended_gcd(&n(a), &n(b));
        let g = to_big(&g);
        let (x, y) = (to_signed(&x), to_signed(&y));
        assert!(x.magnitude() <= &(BigUint::from(b) / &g));
        assert!(y.magnitude() <= &(BigUint::from(a) / &g));
    }
}
