//! The hybrid envelope: a random AES key sealed with RSA beside the
//! AES-encrypted data, and RSA signatures over a SHA-256 digest.
use crate::bignum::{
    be_bytes, be_value, from_bytes_be, lemma_be_bytes_monotone, lemma_be_bytes_of_value,
    lemma_be_round_trip, to_bytes_be,
    zeros,
};
use crate::fermat::{lemma_rsa_round_trip, lemma_rsa_sign_round_trip};
use crate::number_theory::is_prime;
use crate::modular_arith::{mod_pow, ArithmeticError};
use crate::rsa::{decrypt_rsa, encrypt_rsa, keys_from_primes, PrivateKey, PublicKey};
use crate::symmetric::{
    aes256_cbc_decrypted, aes256_cbc_encrypted, decrypt_aes256, hex_decoded, padded_len, encrypt_aes256, parse_hex_key,
    random_key, SymmetricError, IV_LEN, KEY_LEN,
};
use sha2::{Digest, Sha256};
use vstd::prelude::*;
use vstd::slice::{slice_subrange, slice_to_vec};

verus! {

/// Why an envelope or a signature could not be made or read.
#[derive(Debug, Clone, Copy, PartialEq, Eq, Structural)]
pub enum CodecError {
    /// The data ends before the parts that its header announces.
    TruncatedEnvelope,
    /// The RSA-encrypted key does not fit a two-byte length.
    SealedKeyTooLong,
    /// The recovered key is longer than an AES key.
    InvalidKeyLength,
    /// The RSA modulus is zero.
    Arithmetic(ArithmeticError),
    /// The symmetric layer refused the data.
    Symmetric(SymmetricError),
}

/// The SHA-256 digest of `data`.
pub uninterp spec fn sha256_of(data: Seq<u8>) -> Seq<u8>;

/// Relies on `sha2::Sha256::digest`: the 32-byte SHA-256 digest.
#[verifier::external_body]
fn sha256(data: &[u8]) -> (r: Vec<u8>)
    ensures
        r@ == sha256_of(data@),
        r@.len() == 32,
{
    Sha256::digest(data).to_vec()
}

/// Appends `b` to `out`.
pub(crate) fn append_bytes(out: &mut Vec<u8>, b: &[u8])
    ensures
        final(out)@ == old(out)@ + b@,
{
    out.extend_from_slice(b);
    assert(final(out)@ =~= old(out)@ + b@);
}

/// The two-byte big-endian length of the sealed key, then the sealed key, the
/// IV and the ciphertext.
pub open spec fn envelope_bytes(sealed_key: Seq<u8>, iv: Seq<u8>, ciphertext: Seq<u8>) -> Seq<u8> {
    seq![(sealed_key.len() / 256) as u8, (sealed_key.len() % 256) as u8] + sealed_key + iv
        + ciphertext
}

/// The sealed key's length that an envelope's header announces.
pub open spec fn announced_len(data: Seq<u8>) -> int {
    data[0] as int * 256 + data[1] as int
}

/// The data holds the header and every part that it announces.
pub open spec fn envelope_complete(data: Seq<u8>) -> bool {
    data.len() >= 2 && data.len() >= 2 + announced_len(data) + IV_LEN
}

pub open spec fn envelope_key(data: Seq<u8>) -> Seq<u8> {
    data.subrange(2, 2 + announced_len(data))
}

pub open spec fn envelope_iv(data: Seq<u8>) -> Seq<u8> {
    data.subrange(2 + announced_len(data), 2 + announced_len(data) + IV_LEN as int)
}

pub open spec fn envelope_body(data: Seq<u8>) -> Seq<u8> {
    data.subrange(2 + announced_len(data) + IV_LEN as int, data.len() as int)
}

/// Lays out an envelope; fails when the sealed key is 65536 bytes or longer.
pub fn frame_envelope(sealed_key: &[u8], iv: &[u8], ciphertext: &[u8]) -> (r: Result<Vec<u8>, CodecError>)
    ensures
        sealed_key@.len() >= 0x1_0000 ==> r == Err::<Vec<u8>, CodecError>(CodecError::SealedKeyTooLong),
        sealed_key@.len() < 0x1_0000 ==> (r matches Ok(v) && v@ == envelope_bytes(sealed_key@, iv@, ciphertext@)),
{
    if sealed_key.len() >= 0x1_0000 {
        return Err(CodecError::SealedKeyTooLong);
    }
    let len: usize = sealed_key.len();
    let mut out: Vec<u8> = Vec::new();
    out.push((len / 256) as u8);
    out.push((len % 256) as u8);
    append_bytes(&mut out, sealed_key);
    append_bytes(&mut out, iv);
    append_bytes(&mut out, ciphertext);
    assert(out@ =~= envelope_bytes(sealed_key@, iv@, ciphertext@));
    Ok(out)
}

/// Splits an envelope into the sealed key, the IV and the ciphertext.
pub fn parse_envelope(data: &[u8]) -> (r: Result<(Vec<u8>, Vec<u8>, Vec<u8>), CodecError>)
    ensures
        !envelope_complete(data@) ==> r == Err::<(Vec<u8>, Vec<u8>, Vec<u8>), CodecError>(CodecError::TruncatedEnvelope),
        envelope_complete(data@) ==> (r matches Ok((k, v, c)) && k@ == envelope_key(data@) && v@
            == envelope_iv(data@) && c@ == envelope_body(data@)),
{
    if data.len() < 2 {
        return Err(CodecError::TruncatedEnvelope);
    }
    let key_len: usize = (data[0] as usize) * 256 + data[1] as usize;
    if data.len() - 2 < key_len || data.len() - 2 - key_len < IV_LEN {
        return Err(CodecError::TruncatedEnvelope);
    }
    let k = slice_to_vec(slice_subrange(data, 2, 2 + key_len));
    let v = slice_to_vec(slice_subrange(data, 2 + key_len, 2 + key_len + IV_LEN));
    let c = slice_to_vec(slice_subrange(data, 2 + key_len + IV_LEN, data.len()));
    Ok((k, v, c))
}

/// Framing and parsing are inverse: parsing a framed envelope gives back its
/// three parts.
pub proof fn lemma_envelope_round_trip(sealed_key: Seq<u8>, iv: Seq<u8>, ciphertext: Seq<u8>)
    requires
        sealed_key.len() < 0x1_0000,
        iv.len() == IV_LEN,
    ensures
        envelope_complete(envelope_bytes(sealed_key, iv, ciphertext)),
        envelope_key(envelope_bytes(sealed_key, iv, ciphertext)) == sealed_key,
        envelope_iv(envelope_bytes(sealed_key, iv, ciphertext)) == iv,
        envelope_body(envelope_bytes(sealed_key, iv, ciphertext)) == ciphertext,
{
    let data = envelope_bytes(sealed_key, iv, ciphertext);
    let n = sealed_key.len();
    assert(announced_len(data) == n);
    assert(envelope_key(data) =~= sealed_key);
    assert(envelope_iv(data) =~= iv);
    assert(envelope_body(data) =~= ciphertext);
}

/// `b` with zero bytes put in front up to the length of an AES key.
pub open spec fn left_pad_key(b: Seq<u8>) -> Seq<u8> {
    if b.len() < KEY_LEN {
        Seq::new((KEY_LEN - b.len()) as nat, |i: int| 0u8) + b
    } else {
        b
    }
}

/// The AES key sealed under the public key: the RSA transform of its
/// big-endian value, written back as bytes.
pub open spec fn sealed_key_of(key: Seq<u8>, pub_key: PublicKey) -> Seq<u8> {
    be_bytes(mod_pow(be_value(key), pub_key.e@, pub_key.n@))
}

/// The AES key bytes recovered from a sealed key with the private key, before
/// padding.
pub open spec fn unsealed_key_of(sealed: Seq<u8>, priv_key: PrivateKey) -> Seq<u8> {
    be_bytes(mod_pow(be_value(sealed), priv_key.d@, priv_key.n@))
}

/// Opening a sealed envelope with the matching private key gives back the AES
/// key, the IV and the ciphertext that went in, for keys built from two primes
/// and an AES key whose value is below the modulus. By `hybrid_decrypt`'s
/// contract, opening such an envelope then returns the plaintext.
pub proof fn lemma_hybrid_round_trip(
    pk: PublicKey,
    sk: PrivateKey,
    p: nat,
    q: nat,
    key: Seq<u8>,
    iv: Seq<u8>,
    plaintext: Seq<u8>,
)
    requires
        keys_from_primes(pk, sk, p, q),
        is_prime(p),
        is_prime(q),
        key.len() == KEY_LEN,
        iv.len() == IV_LEN,
        be_value(key) < pk.n@,
        sealed_key_of(key, pk).len() < 0x1_0000,
    ensures
        ({
            let env = envelope_bytes(sealed_key_of(key, pk), iv, aes256_cbc_encrypted(key, iv, plaintext));
            &&& envelope_complete(env)
            &&& unsealed_key_of(envelope_key(env), sk).len() <= KEY_LEN
            &&& left_pad_key(unsealed_key_of(envelope_key(env), sk)) == key
            &&& envelope_iv(env) == iv
            &&& envelope_body(env) == aes256_cbc_encrypted(key, iv, plaintext)
        }),
{
    let sealed = sealed_key_of(key, pk);
    lemma_envelope_round_trip(sealed, iv, aes256_cbc_encrypted(key, iv, plaintext));
    let c = mod_pow(be_value(key), pk.e@, pk.n@);
    lemma_be_round_trip(c);
    lemma_rsa_round_trip(pk, sk, p, q, be_value(key));
    lemma_be_bytes_of_value(key);
    let b = be_bytes(be_value(key));
    assert(unsealed_key_of(sealed, sk) == b);
    if b.len() == KEY_LEN {
        assert(zeros(0) + b =~= b);
    } else {
        assert(Seq::new((KEY_LEN - b.len()) as nat, |i: int| 0u8) == zeros((KEY_LEN - b.len()) as nat));
    }
}

/// A signature made with the private key verifies under the matching public
/// key, for keys built from two primes and a digest whose value is below the
/// modulus.
pub proof fn lemma_sign_then_verify(pk: PublicKey, sk: PrivateKey, p: nat, q: nat, data: Seq<u8>)
    requires
        keys_from_primes(pk, sk, p, q),
        is_prime(p),
        is_prime(q),
        be_value(sha256_of(data)) < pk.n@,
    ensures
        ({
            let signature = be_bytes(mod_pow(be_value(sha256_of(data)), sk.d@, sk.n@));
            mod_pow(be_value(signature), pk.e@, pk.n@) == be_value(sha256_of(data))
        }),
{
    let h = be_value(sha256_of(data));
    lemma_be_round_trip(mod_pow(h, sk.d@, sk.n@));
    lemma_rsa_sign_round_trip(pk, sk, p, q, h);
}

/// Seals `plaintext` for `pub_key` with the given AES key and IV.
pub fn hybrid_encrypt_with(plaintext: &[u8], pub_key: &PublicKey, key: &[u8], iv: Vec<u8>) -> (r: Result<Vec<u8>, CodecError>)
    ensures
        key@.len() != KEY_LEN ==> r == Err::<Vec<u8>, CodecError>(CodecError::Symmetric(SymmetricError::InvalidKeyLength)),
        key@.len() == KEY_LEN && iv@.len() != IV_LEN ==> r == Err::<Vec<u8>, CodecError>(CodecError::Symmetric(SymmetricError::InvalidIvLength)),
        key@.len() == KEY_LEN && iv@.len() == IV_LEN && pub_key.n@ == 0 ==> r == Err::<Vec<u8>, CodecError>(CodecError::Arithmetic(ArithmeticError::InvalidModulus)),
        key@.len() == KEY_LEN && iv@.len() == IV_LEN && pub_key.n@ > 0 ==> {
            let sealed = sealed_key_of(key@, *pub_key);
            if sealed.len() < 0x1_0000 {
                r matches Ok(v) && v@ == envelope_bytes(sealed, iv@, aes256_cbc_encrypted(key@, iv@, plaintext@))
                    && v@.len() == 2 + sealed.len() + IV_LEN + padded_len(plaintext@.len())
            } else {
                r == Err::<Vec<u8>, CodecError>(CodecError::SealedKeyTooLong)
            }
        },
{
    let (iv, ciphertext) = match crate::symmetric::encrypt_aes256_with_iv(key, iv, plaintext) {
        Ok(p) => p,
        Err(e) => {
            return Err(CodecError::Symmetric(e));
        },
    };
    let sealed = match encrypt_rsa(&from_bytes_be(key), pub_key) {
        Ok(c) => to_bytes_be(&c),
        Err(e) => {
            return Err(CodecError::Arithmetic(e));
        },
    };
    frame_envelope(sealed.as_slice(), iv.as_slice(), ciphertext.as_slice())
}

/// Seals `plaintext` for `pub_key` under a fresh random AES key and IV.
pub fn hybrid_encrypt(plaintext: &[u8], pub_key: &PublicKey) -> (r: Result<Vec<u8>, CodecError>)
    ensures
        pub_key.n@ == 0 ==> r == Err::<Vec<u8>, CodecError>(CodecError::Arithmetic(ArithmeticError::InvalidModulus)),
        pub_key.n@ > 0 && be_bytes(pub_key.n@).len() < 0x1_0000 ==> r is Ok,
        r matches Ok(v) ==> exists|key: Seq<u8>, iv: Seq<u8>|
            key.len() == KEY_LEN && iv.len() == IV_LEN && #[trigger] envelope_bytes(
                sealed_key_of(key, *pub_key),
                iv,
                aes256_cbc_encrypted(key, iv, plaintext@),
            ) == v@ && v@.len() == 2 + sealed_key_of(key, *pub_key).len() + IV_LEN + padded_len(
                plaintext@.len(),
            ),
        r matches Err(e) ==> pub_key.n@ == 0 || e == CodecError::SealedKeyTooLong,
{
    let key = random_key();
    let iv = crate::symmetric::random_iv();
    let ghost ivs = iv@;
    let r = hybrid_encrypt_with(plaintext, pub_key, key.as_slice(), iv);
    proof {
        if pub_key.n@ > 0 {
            let c = mod_pow(be_value(key@), pub_key.e@, pub_key.n@);
            vstd::arithmetic::div_mod::lemma_mod_bound(
                vstd::arithmetic::power::pow(be_value(key@) as int, pub_key.e@),
                pub_key.n@ as int,
            );
            lemma_be_bytes_monotone(c, pub_key.n@);
        }
        if r is Ok {
            let v = r->Ok_0;
            assert(envelope_bytes(sealed_key_of(key@, *pub_key), ivs, aes256_cbc_encrypted(key@, ivs, plaintext@)) == v@);
        }
    }
    r
}

/// Opens an envelope with `priv_key`: recovers the AES key (zero bytes in
/// front up to 32 bytes) and decrypts the body.
pub fn hybrid_decrypt(data: &[u8], priv_key: &PrivateKey) -> (r: Result<Vec<u8>, CodecError>)
    ensures
        !envelope_complete(data@) ==> r == Err::<Vec<u8>, CodecError>(CodecError::TruncatedEnvelope),
        envelope_complete(data@) && priv_key.n@ == 0 ==> r == Err::<Vec<u8>, CodecError>(CodecError::Arithmetic(ArithmeticError::InvalidModulus)),
        envelope_complete(data@) && priv_key.n@ > 0 ==> {
            let kb = unsealed_key_of(envelope_key(data@), *priv_key);
            if kb.len() > KEY_LEN {
                r == Err::<Vec<u8>, CodecError>(CodecError::InvalidKeyLength)
            } else {
                match aes256_cbc_decrypted(left_pad_key(kb), envelope_iv(data@), envelope_body(data@)) {
                    Some(p) => r matches Ok(q) && q@ == p,
                    None => r == Err::<Vec<u8>, CodecError>(CodecError::Symmetric(SymmetricError::BadPadding)),
                }
            }
        },
        envelope_complete(data@) && priv_key.n@ > 0 && unsealed_key_of(envelope_key(data@), *priv_key).len() <= KEY_LEN ==> forall|p: Seq<u8>|
            #[trigger] aes256_cbc_encrypted(left_pad_key(unsealed_key_of(envelope_key(data@), *priv_key)), envelope_iv(data@), p)
                == envelope_body(data@) ==> (r matches Ok(q) && q@ == p),
{
    let (sealed, iv, ciphertext) = match parse_envelope(data) {
        Ok(p) => p,
        Err(e) => {
            return Err(e);
        },
    };
    let kb = match decrypt_rsa(&from_bytes_be(sealed.as_slice()), priv_key) {
        Ok(m) => to_bytes_be(&m),
        Err(e) => {
            return Err(CodecError::Arithmetic(e));
        },
    };
    if kb.len() > KEY_LEN {
        return Err(CodecError::InvalidKeyLength);
    }
    let mut key: Vec<u8> = Vec::new();
    while key.len() < KEY_LEN - kb.len()
        invariant
            kb@.len() <= KEY_LEN,
            key@.len() <= KEY_LEN - kb@.len(),
            forall|i: int| 0 <= i < key@.len() ==> key@[i] == 0u8,
        decreases KEY_LEN - kb@.len() - key@.len(),
    {
        key.push(0u8);
    }
    append_bytes(&mut key, kb.as_slice());
    assert(key@ =~= left_pad_key(kb@));
    match decrypt_aes256(key.as_slice(), iv.as_slice(), ciphertext.as_slice()) {
        Ok(p) => Ok(p),
        Err(e) => Err(CodecError::Symmetric(e)),
    }
}

/// Signs a digest: the private transform of its big-endian value, written
/// back as bytes.
pub fn sign_digest(digest: &[u8], priv_key: &PrivateKey) -> (r: Result<Vec<u8>, CodecError>)
    ensures
        priv_key.n@ == 0 ==> r == Err::<Vec<u8>, CodecError>(CodecError::Arithmetic(ArithmeticError::InvalidModulus)),
        priv_key.n@ > 0 ==> (r matches Ok(sig) && sig@ == be_bytes(
            mod_pow(be_value(digest@), priv_key.d@, priv_key.n@),
        )),
{
    match decrypt_rsa(&from_bytes_be(digest), priv_key) {
        Ok(s) => Ok(to_bytes_be(&s)),
        Err(e) => Err(CodecError::Arithmetic(e)),
    }
}

/// Signs `data`: `sign_digest` of its SHA-256 digest.
pub fn sign_data(data: &[u8], priv_key: &PrivateKey) -> (r: Result<Vec<u8>, CodecError>)
    ensures
        priv_key.n@ == 0 ==> r == Err::<Vec<u8>, CodecError>(CodecError::Arithmetic(ArithmeticError::InvalidModulus)),
        priv_key.n@ > 0 ==> (r matches Ok(sig) && sig@ == be_bytes(
            mod_pow(be_value(sha256_of(data@)), priv_key.d@, priv_key.n@),
        )),
{
    let digest = sha256(data);
    sign_digest(digest.as_slice(), priv_key)
}

/// Checks a signature against a digest: the public transform of the
/// signature's value equals the digest's value.
pub fn verify_digest(digest: &[u8], signature: &[u8], pub_key: &PublicKey) -> (r: Result<bool, CodecError>)
    ensures
        pub_key.n@ == 0 ==> r == Err::<bool, CodecError>(CodecError::Arithmetic(ArithmeticError::InvalidModulus)),
        pub_key.n@ > 0 ==> r == Ok::<bool, CodecError>(
            mod_pow(be_value(signature@), pub_key.e@, pub_key.n@) == be_value(digest@),
        ),
{
    let expected = from_bytes_be(digest);
    match encrypt_rsa(&from_bytes_be(signature), pub_key) {
        Ok(v) => Ok(v.equals(&expected)),
        Err(e) => Err(CodecError::Arithmetic(e)),
    }
}

/// Checks a signature of `data`: `verify_digest` with its SHA-256 digest.
pub fn verify_data(data: &[u8], signature: &[u8], pub_key: &PublicKey) -> (r: Result<bool, CodecError>)
    ensures
        pub_key.n@ == 0 ==> r == Err::<bool, CodecError>(CodecError::Arithmetic(ArithmeticError::InvalidModulus)),
        pub_key.n@ > 0 ==> r == Ok::<bool, CodecError>(
            mod_pow(be_value(signature@), pub_key.e@, pub_key.n@) == be_value(sha256_of(data@)),
        ),
{
    let digest = sha256(data);
    verify_digest(digest.as_slice(), signature, pub_key)
}

/// Encrypts `plaintext` under a key written in hex: the IV, then the
/// ciphertext.
pub fn symmetric_encrypt(plaintext: &[u8], key_hex: &str) -> (r: Result<Vec<u8>, SymmetricError>)
    ensures
        match hex_decoded(key_hex@) {
            None => r == Err::<Vec<u8>, SymmetricError>(SymmetricError::InvalidHex),
            Some(k) => if k.len() != KEY_LEN {
                r == Err::<Vec<u8>, SymmetricError>(SymmetricError::InvalidKeyLength)
            } else {
                r matches Ok(v) && v@.len() == IV_LEN + padded_len(plaintext@.len()) && exists|iv: Seq<u8>|
                    iv.len() == IV_LEN && v@ == iv + #[trigger] aes256_cbc_encrypted(k, iv, plaintext@)
            },
        },
{
    let key = match parse_hex_key(key_hex) {
        Ok(k) => k,
        Err(e) => {
            return Err(e);
        },
    };
    let (iv, ciphertext) = match encrypt_aes256(key.as_slice(), plaintext) {
        Ok(p) => p,
        Err(e) => {
            return Err(e);
        },
    };
    let mut out = iv.clone();
    append_bytes(&mut out, ciphertext.as_slice());
    proof {
        assert(out@ == iv@ + aes256_cbc_encrypted(key@, iv@, plaintext@));
    }
    Ok(out)
}

/// Decrypts data laid out as IV then ciphertext under a key written in hex.
pub fn symmetric_decrypt(data: &[u8], key_hex: &str) -> (r: Result<Vec<u8>, SymmetricError>)
    ensures
        match hex_decoded(key_hex@) {
            None => r == Err::<Vec<u8>, SymmetricError>(SymmetricError::InvalidHex),
            Some(k) => if k.len() != KEY_LEN {
                r == Err::<Vec<u8>, SymmetricError>(SymmetricError::InvalidKeyLength)
            } else if data@.len() < IV_LEN {
                r == Err::<Vec<u8>, SymmetricError>(SymmetricError::TruncatedCiphertext)
            } else {
                match aes256_cbc_decrypted(
                    k,
                    data@.subrange(0, IV_LEN as int),
                    data@.subrange(IV_LEN as int, data@.len() as int),
                ) {
                    Some(p) => r matches Ok(q) && q@ == p,
                    None => r == Err::<Vec<u8>, SymmetricError>(SymmetricError::BadPadding),
                }
            },
        },
        hex_decoded(key_hex@) matches Some(k) && k.len() == KEY_LEN && data@.len() >= IV_LEN ==> forall|p: Seq<u8>|
            #[trigger] aes256_cbc_encrypted(hex_decoded(key_hex@)->Some_0, data@.subrange(0, IV_LEN as int), p)
                == data@.subrange(IV_LEN as int, data@.len() as int) ==> (r matches Ok(q) && q@ == p),
{
    let key = match parse_hex_key(key_hex) {
        Ok(k) => k,
        Err(e) => {
            return Err(e);
        },
    };
    if data.len() < IV_LEN {
        return Err(SymmetricError::TruncatedCiphertext);
    }
    let iv = slice_subrange(data, 0, IV_LEN);
    let ciphertext = slice_subrange(data, IV_LEN, data.len());
    decrypt_aes256(key.as_slice(), iv, ciphertext)
}

} // verus!
