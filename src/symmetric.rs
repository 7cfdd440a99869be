//! AES-256 in CBC mode with PKCS#7 padding, and 256-bit keys written in hex.
use aes::Aes256;
use block_padding::Pkcs7;
use cbc::cipher::{BlockDecryptMut, BlockEncryptMut, KeyIvInit};
use rand::Rng;
use vstd::prelude::*;

verus! {

/// Bytes in an AES-256 key.
pub const KEY_LEN: usize = 32;

/// Bytes in a CBC initialisation vector (one AES block).
pub const IV_LEN: usize = 16;

/// Why a symmetric operation was refused.
#[derive(Debug, Clone, Copy, PartialEq, Eq, Structural)]
pub enum SymmetricError {
    /// The key is not 32 bytes long.
    InvalidKeyLength,
    /// The initialisation vector is not 16 bytes long.
    InvalidIvLength,
    /// The text is not an even number of hex digits.
    InvalidHex,
    /// The ciphertext is shorter than an initialisation vector.
    TruncatedCiphertext,
    /// The ciphertext is not whole blocks, or its decryption does not end in
    /// valid PKCS#7 padding.
    BadPadding,
}

/// The AES-256-CBC encryption of `plaintext` with PKCS#7 padding.
pub uninterp spec fn aes256_cbc_encrypted(key: Seq<u8>, iv: Seq<u8>, plaintext: Seq<u8>) -> Seq<u8>;

/// The AES-256-CBC decryption of `ciphertext` with its PKCS#7 padding taken
/// off; `None` where the ciphertext is not whole blocks or the padding is not
/// valid.
pub uninterp spec fn aes256_cbc_decrypted(key: Seq<u8>, iv: Seq<u8>, ciphertext: Seq<u8>) -> Option<Seq<u8>>;

/// Length of PKCS#7-padded data: the next whole number of 16-byte blocks,
/// with a full block of padding when the length is already whole blocks.
pub open spec fn padded_len(len: nat) -> nat {
    16 * (len / 16 + 1)
}

/// Value of a hex digit, either case.
pub open spec fn hex_digit(c: char) -> Option<nat> {
    if '0' <= c && c <= '9' {
        Some((c as nat - '0' as nat) as nat)
    } else if 'a' <= c && c <= 'f' {
        Some((c as nat - 'a' as nat + 10) as nat)
    } else if 'A' <= c && c <= 'F' {
        Some((c as nat - 'A' as nat + 10) as nat)
    } else {
        None
    }
}

/// The bytes that a text of hex digit pairs stands for, high digit first;
/// `None` for an odd length or a character that is not a hex digit.
pub open spec fn hex_decoded(s: Seq<char>) -> Option<Seq<u8>>
    decreases s.len(),
{
    if s.len() == 0 {
        Some(Seq::empty())
    } else if s.len() == 1 {
        None
    } else {
        match (hex_digit(s[0]), hex_digit(s[1]), hex_decoded(s.subrange(2, s.len() as int))) {
            (Some(hi), Some(lo), Some(rest)) => Some(seq![(hi * 16 + lo) as u8] + rest),
            _ => None,
        }
    }
}

/// Relies on `cbc::Encryptor<Aes256>::encrypt_padded_mut::<Pkcs7>` over a
/// buffer with one spare block, which is always room enough: PKCS#7 pads to
/// the next whole block, adding 1 to 16 bytes. `new` panics on a key or IV of
/// the wrong length, which `requires` rules out.
#[verifier::external_body]
fn cbc_encrypt(key: &[u8], iv: &[u8], plaintext: &[u8]) -> (r: Vec<u8>)
    requires
        key@.len() == KEY_LEN,
        iv@.len() == IV_LEN,
    ensures
        r@ == aes256_cbc_encrypted(key@, iv@, plaintext@),
        r@.len() == padded_len(plaintext@.len()),
{
    let mut buffer = vec![0u8; plaintext.len() + IV_LEN];
    buffer[..plaintext.len()].copy_from_slice(plaintext);
    let cipher = cbc::Encryptor::<Aes256>::new(key.into(), iv.into());
    let ct = cipher.encrypt_padded_mut::<Pkcs7>(&mut buffer, plaintext.len()).unwrap();
    ct.to_vec()
}

/// Relies on `cbc::Decryptor<Aes256>::decrypt_padded_mut::<Pkcs7>`, whose
/// only error is a length that is not whole blocks or invalid padding, and
/// which undoes `encrypt_padded_mut` under the same key and IV (the round trip
/// of cbc's own documentation); `new` panics on a key or IV of the wrong
/// length, which `requires` rules out.
#[verifier::external_body]
fn cbc_decrypt(key: &[u8], iv: &[u8], ciphertext: &[u8]) -> (r: Option<Vec<u8>>)
    requires
        key@.len() == KEY_LEN,
        iv@.len() == IV_LEN,
    ensures
        r matches Some(p) ==> aes256_cbc_decrypted(key@, iv@, ciphertext@) == Some(p@),
        r is None ==> aes256_cbc_decrypted(key@, iv@, ciphertext@) is None,
        r is None ==> forall|p: Seq<u8>| #[trigger] aes256_cbc_encrypted(key@, iv@, p) != ciphertext@,
        r matches Some(q) ==> forall|p: Seq<u8>| #[trigger] aes256_cbc_encrypted(key@, iv@, p) == ciphertext@ ==> q@ == p,
{
    let cipher = cbc::Decryptor::<Aes256>::new(key.into(), iv.into());
    let mut buf = ciphertext.to_vec();
    match cipher.decrypt_padded_mut::<Pkcs7>(&mut buf) {
        Ok(pt) => Some(pt.to_vec()),
        Err(_) => None,
    }
}

/// Relies on `rand::thread_rng().gen::<[u8; 16]>()`: sixteen random bytes.
#[verifier::external_body]
pub(crate) fn random_iv() -> (r: Vec<u8>)
    ensures
        r@.len() == IV_LEN,
{
    let iv: [u8; 16] = rand::thread_rng().gen();
    iv.to_vec()
}

/// Relies on `rand::random::<[u8; 32]>()`: thirty-two random bytes.
#[verifier::external_body]
pub(crate) fn random_key() -> (r: Vec<u8>)
    ensures
        r@.len() == KEY_LEN,
{
    let key: [u8; 32] = rand::random();
    key.to_vec()
}

/// Relies on `hex::decode`, which reads pairs of hex digits of either case and
/// fails on an odd length or any other character.
#[verifier::external_body]
fn hex_decode(text: &str) -> (r: Option<Vec<u8>>)
    ensures
        r matches Some(b) ==> hex_decoded(text@) == Some(b@),
        r is None ==> hex_decoded(text@) is None,
{
    hex::decode(text).ok()
}

/// Encrypts under `key` with the given IV; the IV is handed back beside the
/// ciphertext.
pub fn encrypt_aes256_with_iv(key: &[u8], iv: Vec<u8>, plaintext: &[u8]) -> (r: Result<(Vec<u8>, Vec<u8>), SymmetricError>)
    ensures
        key@.len() != KEY_LEN ==> r == Err::<(Vec<u8>, Vec<u8>), SymmetricError>(SymmetricError::InvalidKeyLength),
        key@.len() == KEY_LEN && iv@.len() != IV_LEN ==> r == Err::<(Vec<u8>, Vec<u8>), SymmetricError>(SymmetricError::InvalidIvLength),
        key@.len() == KEY_LEN && iv@.len() == IV_LEN ==> (r matches Ok((v, c)) && v@ == iv@
            && c@ == aes256_cbc_encrypted(key@, iv@, plaintext@)
            && c@.len() == padded_len(plaintext@.len())),
{
    if key.len() != KEY_LEN {
        return Err(SymmetricError::InvalidKeyLength);
    }
    if iv.len() != IV_LEN {
        return Err(SymmetricError::InvalidIvLength);
    }
    let ct = cbc_encrypt(key, iv.as_slice(), plaintext);
    Ok((iv, ct))
}

/// Encrypts under `key` with a fresh random IV; returns the IV and the
/// ciphertext.
pub fn encrypt_aes256(key: &[u8], plaintext: &[u8]) -> (r: Result<(Vec<u8>, Vec<u8>), SymmetricError>)
    ensures
        key@.len() != KEY_LEN ==> r == Err::<(Vec<u8>, Vec<u8>), SymmetricError>(SymmetricError::InvalidKeyLength),
        key@.len() == KEY_LEN ==> (r matches Ok((v, c)) && v@.len() == IV_LEN
            && c@ == aes256_cbc_encrypted(key@, v@, plaintext@)
            && c@.len() == padded_len(plaintext@.len())),
{
    encrypt_aes256_with_iv(key, random_iv(), plaintext)
}

/// Decrypts and takes the padding off.
pub fn decrypt_aes256(key: &[u8], iv: &[u8], ciphertext: &[u8]) -> (r: Result<Vec<u8>, SymmetricError>)
    ensures
        key@.len() != KEY_LEN ==> r == Err::<Vec<u8>, SymmetricError>(SymmetricError::InvalidKeyLength),
        key@.len() == KEY_LEN && iv@.len() != IV_LEN ==> r == Err::<Vec<u8>, SymmetricError>(SymmetricError::InvalidIvLength),
        key@.len() == KEY_LEN && iv@.len() == IV_LEN ==> match aes256_cbc_decrypted(key@, iv@, ciphertext@) {
            Some(p) => r matches Ok(q) && q@ == p,
            None => r == Err::<Vec<u8>, SymmetricError>(SymmetricError::BadPadding),
        },
        key@.len() == KEY_LEN && iv@.len() == IV_LEN ==> forall|p: Seq<u8>|
            #[trigger] aes256_cbc_encrypted(key@, iv@, p) == ciphertext@ ==> (r matches Ok(q) && q@
                == p),
{
    if key.len() != KEY_LEN {
        return Err(SymmetricError::InvalidKeyLength);
    }
    if iv.len() != IV_LEN {
        return Err(SymmetricError::InvalidIvLength);
    }
    match cbc_decrypt(key, iv, ciphertext) {
        Some(p) => Ok(p),
        None => Err(SymmetricError::BadPadding),
    }
}

/// Reads a 256-bit key written as 64 hex digits.
pub fn parse_hex_key(key_hex: &str) -> (r: Result<Vec<u8>, SymmetricError>)
    ensures
        hex_decoded(key_hex@) is None ==> r == Err::<Vec<u8>, SymmetricError>(SymmetricError::InvalidHex),
        hex_decoded(key_hex@) matches Some(k) ==> if k.len() == KEY_LEN {
            r matches Ok(v) && v@ == k
        } else {
            r == Err::<Vec<u8>, SymmetricError>(SymmetricError::InvalidKeyLength)
        },
{
    match hex_decode(key_hex) {
        None => Err(SymmetricError::InvalidHex),
        Some(k) => {
            if k.len() == KEY_LEN {
                Ok(k)
            } else {
                Err(SymmetricError::InvalidKeyLength)
            }
        },
    }
}

} // verus!
