use cryptomorph::symmetric::{
    decrypt_aes256, encrypt_aes256, encrypt_aes256_with_iv, parse_hex_key, SymmetricError,
};
use rand::Rng;

#[test]
fn test_encrypt_decrypt() {
    let key: [u8; 32] = rand::thread_rng().gen();
    let plaintext = b"Das ist eine geheime Nachricht.";
    let (iv, ct) = encrypt_aes256(&key, plaintext).unwrap();
    let pt = decrypt_aes256(&key, &iv, &ct).unwrap();
    assert_eq!(pt, plaintext);
}

#[test]
fn cbc_padding_and_errors() {
    let key = [7u8; 32];
    let (iv, ct) = encrypt_aes256_with_iv(&key, vec![1u8; 16], b"").unwrap();
    assert_eq!(iv, vec![1u8; 16]);
    assert_eq!(ct.len(), 16);
    let (_, ct) = encrypt_aes256_with_iv(&key, vec![1u8; 16], &[9u8; 16]).unwrap();
    assert_eq!(ct.len(), 32);
    assert_ne!(&ct[..16], &[9u8; 16]);
    assert_eq!(encrypt_aes256(&[0u8; 31], b"x"), Err(SymmetricError::InvalidKeyLength));
    assert_eq!(decrypt_aes256(&key, &[0u8; 15], &ct), Err(SymmetricError::InvalidIvLength));
    assert_eq!(decrypt_aes256(&key, &[1u8; 16], &[0u8; 5]), Err(SymmetricError::BadPadding));
}

#[test]
fn hex_keys() {
    let hex64 = "00112233445566778899aabbccddeeff00112233445566778899AABBCCDDEEFF";
    let k = parse_hex_key(hex64).unwrap();
    assert_eq!(k[1], 0x11);
    assert_eq!(k[31], 0xff);
    assert_eq!(parse_hex_key("0011"), Err(SymmetricError::InvalidKeyLength));
    assert_eq!(parse_hex_key("001"), Err(SymmetricError::InvalidHex));
    assert_eq!(parse_hex_key("zz"), Err(SymmetricError::InvalidHex));
}

#[test]
fn ciphertext_lengths() {
    let key = [3u8; 32];
    for (len, ct_len) in [(0usize, 16usize), (15, 16), (16, 32), (31, 32), (32, 48)] {
        let (iv, ct) = encrypt_aes256(&key, &vec![1u8; len]).unwrap();
        assert_eq!(iv.len(), 16);
        assert_eq!(ct.len(), ct_len);
        assert_eq!(decrypt_aes256(&key, &iv, &ct).unwrap(), vec![1u8; len]);
    }
}
