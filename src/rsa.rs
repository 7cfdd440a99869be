//! Textbook RSA: key generation from two random probable primes, and the
//! public and private transforms.
use crate::bignum::{add_nat, mul_nat, sub_nat, BigNat};
use crate::modular_arith::{mod_exp, mod_pow, ArithmeticError};
use crate::number_theory::{gcd_of, is_coprime, mod_inverse};
use crate::primality::is_probably_prime;
use num_bigint::RandBigInt;
use vstd::arithmetic::power2::pow2;
use vstd::prelude::*;

verus! {

/// The fixed public exponent.
pub const PUBLIC_EXPONENT: u64 = 65537;

/// Miller-Rabin rounds that a prime candidate must pass.
pub const PRIME_ROUNDS: u32 = 10;

/// Candidates drawn in the search for one prime before it gives up.
pub const MAX_PRIME_ATTEMPTS: u64 = 100_000;

/// Pairs of primes drawn in the search for two distinct ones before it gives up.
pub const MAX_PAIR_ATTEMPTS: u64 = 1000;

#[derive(Debug)]
pub struct PublicKey {
    pub e: BigNat,
    pub n: BigNat,
}

#[derive(Debug)]
pub struct PrivateKey {
    pub d: BigNat,
    pub n: BigNat,
}

/// Why key generation gave up.
#[derive(Debug, Clone, Copy, PartialEq, Eq, Structural)]
pub enum KeyGenError {
    /// No probable prime of the requested size turned up in the allotted draws.
    PrimeSearchExhausted,
    /// Two distinct primes did not turn up in the allotted draws.
    DistinctPrimesExhausted,
    /// The public exponent shares a factor with `(p - 1)(q - 1)`.
    ExponentNotCoprime,
    /// The public exponent has no inverse modulo `(p - 1)(q - 1)`.
    NoInverse,
}

/// The keys are built from the odd numbers `p != q` (each at least 3): same
/// modulus `p*q`, the fixed public exponent, and a private exponent in
/// `[0, (p-1)(q-1))` inverse to it modulo `(p-1)(q-1)`.
pub open spec fn keys_from_primes(pk: PublicKey, sk: PrivateKey, p: nat, q: nat) -> bool {
    let phi = ((p - 1) * (q - 1)) as nat;
    &&& p != q
    &&& p >= 3 && p % 2 == 1
    &&& q >= 3 && q % 2 == 1
    &&& pk.n@ == p * q
    &&& sk.n@ == p * q
    &&& pk.e@ == PUBLIC_EXPONENT
    &&& sk.d@ < phi
    &&& (pk.e@ * sk.d@) % phi == 1
}

/// Relies on `RandBigInt::gen_biguint` of `num-bigint` over `rand`'s `OsRng`:
/// a value of at most `bits` bits.
#[verifier::external_body]
fn random_bits(bits: u64) -> (r: BigNat)
    ensures
        r@ < pow2(bits as nat),
{
    let x = rand::rngs::OsRng.gen_biguint(bits);
    BigNat { limbs: x.to_u32_digits() }
}

/// Turns a random draw into a prime candidate: an even value is raised to
/// the next odd one (its lowest bit set).
pub fn odd_candidate(raw: BigNat) -> (r: BigNat)
    ensures
        r@ == if raw@ % 2 == 0 { raw@ + 1 } else { raw@ },
{
    if raw.is_odd() {
        raw
    } else {
        add_nat(&raw, &BigNat::from_u64(1))
    }
}

/// Draws odd candidates below `2^bits` until one passes the primality test;
/// gives up after `MAX_PRIME_ATTEMPTS` draws.
pub fn gen_prime(bits: u64) -> (r: Result<BigNat, KeyGenError>)
    ensures
        r matches Ok(p) ==> p@ >= 3 && p@ % 2 == 1 && p@ < pow2(bits as nat),
        r matches Err(e) ==> e == KeyGenError::PrimeSearchExhausted,
{
    let mut attempt: u64 = 0;
    while attempt < MAX_PRIME_ATTEMPTS
        decreases MAX_PRIME_ATTEMPTS - attempt,
    {
        let raw = random_bits(bits);
        let ghost raw_v = raw@;
        let candidate = odd_candidate(raw);
        proof {
            if bits > 0 {
                vstd::arithmetic::power2::lemma_pow2_unfold(bits as nat);
                assert(pow2(bits as nat) % 2 == 0);
            } else {
                vstd::arithmetic::power2::lemma2_to64();
            }
            assert(candidate@ < pow2(bits as nat) || candidate@ == 1);
        }
        if is_probably_prime(&candidate, PRIME_ROUNDS) {
            return Ok(candidate);
        }
        attempt = attempt + 1;
    }
    Err(KeyGenError::PrimeSearchExhausted)
}

/// Builds the key pair of two distinct odd numbers `p` and `q` (each at least
/// 3): modulus `p*q`, the fixed public exponent, and its inverse modulo
/// `(p-1)(q-1)`; fails when the exponent shares a factor with `(p-1)(q-1)`.
pub fn keypair_from_primes(p: &BigNat, q: &BigNat) -> (r: Result<(PublicKey, PrivateKey), KeyGenError>)
    requires
        p@ != q@,
        p@ >= 3 && p@ % 2 == 1,
        q@ >= 3 && q@ % 2 == 1,
    ensures
        gcd_of(PUBLIC_EXPONENT as nat, ((p@ - 1) * (q@ - 1)) as nat) == 1 <==> r is Ok,
        r matches Ok((pk, sk)) ==> keys_from_primes(pk, sk, p@, q@),
        r matches Err(e) ==> e == KeyGenError::ExponentNotCoprime,
{
    let one = BigNat::from_u64(1);
    let n = mul_nat(p, q);
    let phi = mul_nat(&sub_nat(p, &one), &sub_nat(q, &one));
    let e = BigNat::from_u64(PUBLIC_EXPONENT);
    assert(phi@ == ((p@ - 1) * (q@ - 1)) as nat);
    if !is_coprime(&e, &phi) {
        return Err(KeyGenError::ExponentNotCoprime);
    }
    proof {
        assert((p@ - 1) * (q@ - 1) >= 4) by (nonlinear_arith)
            requires
                p@ >= 3,
                q@ >= 3,
        ;
    }
    let d = match mod_inverse(&e, &phi) {
        Some(d) => d,
        None => {
            return Err(KeyGenError::NoInverse);
        },
    };
    proof {
        vstd::arithmetic::div_mod::lemma_small_mod(1, phi@);
    }
    let pk = PublicKey { e, n: n.clone() };
    let sk = PrivateKey { d, n };
    assert(keys_from_primes(pk, sk, p@, q@));
    Ok((pk, sk))
}

/// Generates a key pair whose modulus is the product of two distinct random
/// probable primes below `2^(bits / 2)`.
pub fn generate_rsa_keypair(bits: usize) -> (r: Result<(PublicKey, PrivateKey), KeyGenError>)
    ensures
        r matches Ok((pk, sk)) ==> exists|p: nat, q: nat|
            #[trigger] keys_from_primes(pk, sk, p, q) && p < pow2((bits / 2) as nat) && q < pow2(
                (bits / 2) as nat,
            ),
{
    let half: u64 = (bits / 2) as u64;
    let mut pair: Option<(BigNat, BigNat)> = None;
    let mut attempt: u64 = 0;
    while attempt < MAX_PAIR_ATTEMPTS && pair.is_none()
        invariant
            half as nat == (bits / 2) as nat,
            pair matches Some((p, q)) ==> (p@ != q@ && p@ >= 3 && p@ % 2 == 1 && q@ >= 3 && q@
                % 2 == 1 && p@ < pow2(half as nat) && q@ < pow2(half as nat)),
        decreases MAX_PAIR_ATTEMPTS - attempt,
    {
        let p = match gen_prime(half) {
            Ok(p) => p,
            Err(e) => {
                return Err(e);
            },
        };
        let q = match gen_prime(half) {
            Ok(q) => q,
            Err(e) => {
                return Err(e);
            },
        };
        if !p.equals(&q) {
            pair = Some((p, q));
        }
        attempt = attempt + 1;
    }
    let (p, q) = match pair {
        Some(pq) => pq,
        None => {
            return Err(KeyGenError::DistinctPrimesExhausted);
        },
    };
    let r = keypair_from_primes(&p, &q);
    proof {
        if r is Ok {
            let (gp, gq) = (p@, q@);
            assert(r matches Ok((a, b)) && keys_from_primes(a, b, gp, gq));
        }
    }
    r
}

/// The public transform `message^e mod n`.
pub fn encrypt_rsa(message: &BigNat, pub_key: &PublicKey) -> (r: Result<BigNat, ArithmeticError>)
    ensures
        pub_key.n@ == 0 ==> r == Err::<BigNat, ArithmeticError>(ArithmeticError::InvalidModulus),
        pub_key.n@ > 0 ==> (r matches Ok(c) && c@ == mod_pow(message@, pub_key.e@, pub_key.n@)),
{
    mod_exp(message.clone(), pub_key.e.clone(), &pub_key.n)
}

/// The private transform `ciphertext^d mod n`.
pub fn decrypt_rsa(ciphertext: &BigNat, priv_key: &PrivateKey) -> (r: Result<BigNat, ArithmeticError>)
    ensures
        priv_key.n@ == 0 ==> r == Err::<BigNat, ArithmeticError>(ArithmeticError::InvalidModulus),
        priv_key.n@ > 0 ==> (r matches Ok(m) && m@ == mod_pow(ciphertext@, priv_key.d@, priv_key.n@)),
{
    mod_exp(ciphertext.clone(), priv_key.d.clone(), &priv_key.n)
}

} // verus!
