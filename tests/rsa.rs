use cryptomorph::bignum::BigNat;
use cryptomorph::modular_arith::ArithmeticError;
use cryptomorph::rsa::{
    decrypt_rsa, encrypt_rsa, gen_prime, generate_rsa_keypair, keypair_from_primes, odd_candidate,
    KeyGenError, PrivateKey, PublicKey,
};
use num_bigint::BigUint;

#[test]
fn test_rsa_encrypt_decrypt() {
    let (pub_key, priv_key) = generate_rsa_keypair(512).unwrap();
    let message = BigNat::from_u64(12345);

    let ciphertext = encrypt_rsa(&message, &pub_key).unwrap();
    let decrypted = decrypt_rsa(&ciphertext, &priv_key).unwrap();

    assert_eq!(message, decrypted);
}

#[test]
fn textbook_key_values() {
    // p = 61, q = 53, n = 3233, e = 17, d = 2753
    let pk = PublicKey { e: BigNat::from_u64(17), n: BigNat::from_u64(3233) };
    let sk = PrivateKey { d: BigNat::from_u64(2753), n: BigNat::from_u64(3233) };
    let c = encrypt_rsa(&BigNat::from_u64(65), &pk).unwrap();
    assert_eq!(c, BigNat::from_u64(2790));
    assert_eq!(decrypt_rsa(&c, &sk).unwrap(), BigNat::from_u64(65));
}

#[test]
fn zero_modulus_key() {
    let pk = PublicKey { e: BigNat::from_u64(17), n: BigNat::zero() };
    assert_eq!(encrypt_rsa(&BigNat::from_u64(5), &pk), Err(ArithmeticError::InvalidModulus));
}

#[test]
fn generated_keys_round_trip_many() {
    let (pk, sk) = generate_rsa_keypair(128).unwrap();
    assert_eq!(pk.e, BigNat::from_u64(65537));
    assert_eq!(pk.n, sk.n);
    for m in [0u64, 1, 2, 99, 65537, 0xdead_beef] {
        let msg = BigNat::from_u64(m);
        let back = decrypt_rsa(&encrypt_rsa(&msg, &pk).unwrap(), &sk).unwrap();
        assert_eq!(back, msg);
    }
}

#[test]
fn keypair_from_known_primes() {
    let (pk, sk) = keypair_from_primes(&BigNat::from_u64(61), &BigNat::from_u64(53)).unwrap();
    assert_eq!(pk.n, BigNat::from_u64(3233));
    assert_eq!(sk.n, BigNat::from_u64(3233));
    assert_eq!(pk.e, BigNat::from_u64(65537));
    // 65537 = 17 (mod 3120), and 17 * 2753 = 1 (mod 3120)
    assert_eq!(sk.d, BigNat::from_u64(2753));
    // 65537 divides (131075 - 1) * (3 - 1)
    assert_eq!(
        keypair_from_primes(&BigNat::from_u64(131075), &BigNat::from_u64(3)).err(),
        Some(KeyGenError::ExponentNotCoprime)
    );
}

#[test]
fn candidates_and_prime_size() {
    assert_eq!(odd_candidate(BigNat::from_u64(4)), BigNat::from_u64(5));
    assert_eq!(odd_candidate(BigNat::from_u64(7)), BigNat::from_u64(7));
    assert_eq!(odd_candidate(BigNat::zero()), BigNat::from_u64(1));
    for _ in 0..10 {
        let p = gen_prime(8).unwrap();
        let v = BigUint::new(p.limbs.clone());
        assert!(v < BigUint::from(256u32) && v >= BigUint::from(3u32));
        assert_eq!(&v % 2u32, BigUint::from(1u32));
    }
    assert_eq!(gen_prime(1).err(), Some(KeyGenError::PrimeSearchExhausted));
}

#[test]
fn key_size_follows_bits() {
    let (pk, _) = generate_rsa_keypair(64).unwrap();
    let n = BigUint::new(pk.n.limbs.clone());
    assert!(n.bits() <= 64);
}
