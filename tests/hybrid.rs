use cryptomorph::bignum::BigNat;
use cryptomorph::hybrid::{
    frame_envelope, hybrid_decrypt, hybrid_encrypt, hybrid_encrypt_with, parse_envelope,
    sign_data, sign_digest, symmetric_decrypt, symmetric_encrypt, verify_data, verify_digest,
    CodecError,
};
use cryptomorph::rsa::{generate_rsa_keypair, PrivateKey, PublicKey};
use cryptomorph::symmetric::SymmetricError;
use num_bigint::BigUint;
use sha2::{Digest, Sha256};

#[test]
fn hybrid_round_trip_lengths() {
    let (pk, sk) = generate_rsa_keypair(512).unwrap();
    for len in [0usize, 1, 17, 100] {
        let data: Vec<u8> = (0..len).map(|i| (i * 7 + 3) as u8).collect();
        let sealed = hybrid_encrypt(&data, &pk).unwrap();
        assert_eq!(hybrid_decrypt(&sealed, &sk).unwrap(), data);
    }
}

#[test]
fn envelope_layout() {
    let framed = frame_envelope(&[9, 8, 7], &[1u8; 16], &[5, 5]).unwrap();
    let mut expected = vec![0u8, 3, 9, 8, 7];
    expected.extend_from_slice(&[1u8; 16]);
    expected.extend_from_slice(&[5, 5]);
    assert_eq!(framed, expected);
    let (k, iv, c) = parse_envelope(&framed).unwrap();
    assert_eq!((k, iv, c), (vec![9, 8, 7], vec![1u8; 16], vec![5, 5]));
    assert_eq!(parse_envelope(&framed[..20]), Err(CodecError::TruncatedEnvelope));
    assert_eq!(parse_envelope(&[0]), Err(CodecError::TruncatedEnvelope));
    assert_eq!(frame_envelope(&vec![0u8; 0x1_0000], &[], &[]), Err(CodecError::SealedKeyTooLong));
}

#[test]
fn sealed_key_is_rsa_of_key() {
    // n = 3233, e = 17: the key's value is reduced mod n, so the round trip is
    // only checked on the layout here.
    let pk = PublicKey { e: BigNat::from_u64(17), n: BigNat::from_u64(3233) };
    let key = [0u8; 32];
    let out = hybrid_encrypt_with(b"hi", &pk, &key, vec![0u8; 16]).unwrap();
    // 0^17 mod 3233 = 0, written as one zero byte
    assert_eq!(&out[..3], &[0, 1, 0]);
    assert_eq!(out.len(), 3 + 16 + 16);
}

#[test]
fn short_key_is_padded_on_open() {
    let pk = PublicKey { e: BigNat::from_u64(17), n: BigNat::from_u64(3233) };
    let sk = PrivateKey { d: BigNat::from_u64(2753), n: BigNat::from_u64(3233) };
    let mut key = [0u8; 32];
    key[31] = 65;
    let out = hybrid_encrypt_with(b"padded key", &pk, &key, vec![3u8; 16]).unwrap();
    assert_eq!(hybrid_decrypt(&out, &sk).unwrap(), b"padded key".to_vec());
}

#[test]
fn hybrid_errors() {
    let pk = PublicKey { e: BigNat::from_u64(3), n: BigNat::zero() };
    assert_eq!(
        hybrid_encrypt(b"x", &pk),
        Err(CodecError::Arithmetic(cryptomorph::modular_arith::ArithmeticError::InvalidModulus))
    );
    assert_eq!(
        hybrid_encrypt_with(b"x", &pk, &[0u8; 3], vec![0u8; 16]),
        Err(CodecError::Symmetric(SymmetricError::InvalidKeyLength))
    );
    let sk = PrivateKey { d: BigNat::from_u64(1), n: BigNat::from_u64(1u64 << 63) };
    let pk_small = PublicKey { e: BigNat::from_u64(1), n: BigNat::from_u64(1u64 << 63) };
    assert!(hybrid_encrypt_with(b"x", &pk_small, &[0u8; 32], vec![0u8; 16]).is_ok());
    let mut env = vec![0u8, 33];
    env.extend_from_slice(&[0xffu8; 33]);
    env.extend_from_slice(&[0u8; 32]);
    // a modulus above 2^256 lets the recovered key run past 32 bytes
    let big_n = BigNat { limbs: vec![0, 0, 0, 0, 0, 0, 0, 0, 0, 1] };
    let sk_big = PrivateKey { d: BigNat::from_u64(1), n: big_n };
    assert_eq!(hybrid_decrypt(&env, &sk_big), Err(CodecError::InvalidKeyLength));
    assert_eq!(hybrid_decrypt(&[0, 5, 1], &sk), Err(CodecError::TruncatedEnvelope));
}

#[test]
fn sign_and_verify() {
    let (pk, sk) = generate_rsa_keypair(512).unwrap();
    let (other_pk, _) = generate_rsa_keypair(512).unwrap();
    let data = b"signed content".to_vec();
    let sig = sign_data(&data, &sk).unwrap();
    assert_eq!(verify_data(&data, &sig, &pk), Ok(true));
    assert_eq!(verify_data(b"signed content!", &sig, &pk), Ok(false));
    assert_eq!(verify_data(&data, &sig, &other_pk), Ok(false));
}

#[test]
fn signature_value() {
    let sk = PrivateKey { d: BigNat::from_u64(1), n: BigNat { limbs: vec![0, 0, 0, 0, 0, 0, 0, 0, 1] } };
    let sig = sign_data(b"abc", &sk).unwrap();
    let digest = Sha256::digest(b"abc");
    let expected = BigUint::from_bytes_be(&digest).to_bytes_be();
    assert_eq!(sig, expected);
    assert_eq!(sig[0], 0xba);
}

#[test]
fn symmetric_file_layout() {
    let hex_key = "0101010101010101010101010101010101010101010101010101010101010101";
    let out = symmetric_encrypt(b"hello", hex_key).unwrap();
    assert_eq!(out.len(), 32);
    assert_eq!(symmetric_decrypt(&out, hex_key).unwrap(), b"hello".to_vec());
    assert_eq!(symmetric_decrypt(&out[..10], hex_key), Err(SymmetricError::TruncatedCiphertext));
    assert_eq!(symmetric_encrypt(b"x", "abc"), Err(SymmetricError::InvalidHex));
}

#[test]
fn digest_sign_and_verify_values() {
    let pk = PublicKey { e: BigNat::from_u64(17), n: BigNat::from_u64(3233) };
    let sk = PrivateKey { d: BigNat::from_u64(2753), n: BigNat::from_u64(3233) };
    // 2790 = 0x0ae6, and 2790^2753 mod 3233 = 65
    assert_eq!(sign_digest(&[0x0a, 0xe6], &sk).unwrap(), vec![65]);
    assert_eq!(verify_digest(&[0x0a, 0xe6], &[65], &pk), Ok(true));
    assert_eq!(verify_digest(&[0x0a, 0xe7], &[65], &pk), Ok(false));
    // a zero value is written as one zero byte
    assert_eq!(sign_digest(&[], &sk).unwrap(), vec![0]);
}

#[test]
fn envelope_lengths() {
    let (pk, sk) = generate_rsa_keypair(512).unwrap();
    let sealed_len = |env: &Vec<u8>| (env[0] as usize) * 256 + env[1] as usize;
    for (len, ct_len) in [(0usize, 16usize), (1, 16), (16, 32), (17, 32), (40, 48)] {
        let data = vec![0x5au8; len];
        let env = hybrid_encrypt(&data, &pk).unwrap();
        assert_eq!(env.len(), 2 + sealed_len(&env) + 16 + ct_len);
        assert_eq!(hybrid_decrypt(&env, &sk).unwrap(), data);
    }
}
