//! Fermat's little theorem, by the binomial theorem, and what RSA and the
//! Miller-Rabin test get from it.
use crate::modular_arith::mod_pow;
use crate::number_theory::{is_prime, lemma_euclid};
use crate::rsa::{keys_from_primes, PrivateKey, PublicKey};
use vstd::arithmetic::div_mod::{
    lemma_fundamental_div_mod, lemma_mod_multiples_basic, lemma_mod_multiples_vanish,
};
use vstd::arithmetic::div_mod::{lemma_mul_mod_noop_general, lemma_small_mod};
use vstd::arithmetic::power::{
    lemma1_pow, lemma_pow_adds, lemma_pow_increases, lemma_pow_mod_noop, lemma_pow_multiplies,
    lemma_pow_positive, pow,
};
use vstd::prelude::*;

verus! {

/// Binomial coefficient by Pascal's rule.
pub open spec fn binom(n: nat, k: nat) -> nat
    decreases n,
{
    if k == 0 {
        1
    } else if n == 0 {
        0
    } else {
        binom((n - 1) as nat, (k - 1) as nat) + binom((n - 1) as nat, k)
    }
}

/// The sum of `binom(n, j) * x^j` over `j < k`.
pub open spec fn binom_sum(x: int, n: nat, k: nat) -> int
    decreases k,
{
    if k == 0 {
        0
    } else {
        binom_sum(x, n, (k - 1) as nat) + binom(n, (k - 1) as nat) * pow(x, (k - 1) as nat)
    }
}

proof fn lemma_pow_succ(x: int, k: nat)
    ensures
        pow(x, k + 1) == x * pow(x, k),
        pow(x, 0) == 1,
{
    reveal(pow);
}

proof fn lemma_binom_above(n: nat, k: nat)
    requires
        k > n,
    ensures
        binom(n, k) == 0,
    decreases n,
{
    if n > 0 {
        lemma_binom_above((n - 1) as nat, (k - 1) as nat);
        lemma_binom_above((n - 1) as nat, k);
    }
}

proof fn lemma_binom_diag(n: nat)
    ensures
        binom(n, n) == 1,
    decreases n,
{
    if n > 0 {
        lemma_binom_diag((n - 1) as nat);
        lemma_binom_above((n - 1) as nat, n);
    }
}

/// Pascal's rule lifted to the partial sums.
proof fn lemma_pascal_sum(x: int, n: nat, k: nat)
    requires
        k >= 1,
    ensures
        binom_sum(x, n + 1, k) == binom_sum(x, n, k) + x * binom_sum(x, n, (k - 1) as nat),
    decreases k,
{
    lemma_pow_succ(x, 0);
    if k == 1 {
        assert(binom_sum(x, n + 1, 0) == 0);
        assert(binom_sum(x, n, 0) == 0);
        assert(binom(n + 1, 0) == 1);
        assert(binom(n, 0) == 1);
        assert(binom_sum(x, n + 1, 1) == 1);
        assert(binom_sum(x, n, 1) == 1);
    } else {
        let j = (k - 1) as nat;
        lemma_pascal_sum(x, n, j);
        lemma_pow_succ(x, (j - 1) as nat);
        assert(binom(n + 1, j) == binom(n, (j - 1) as nat) + binom(n, j));
        let (a, b, c) = (binom(n, (j - 1) as nat) as int, binom(n, j) as int, pow(x, (j - 1) as nat));
        let (s1, s0) = (binom_sum(x, n, j), binom_sum(x, n, (j - 1) as nat));
        assert(pow(x, j) == x * c);
        assert(binom_sum(x, n + 1, k) == binom_sum(x, n + 1, j) + (a + b) * pow(x, j));
        assert(binom_sum(x, n, k) == s1 + b * pow(x, j));
        assert(s1 == s0 + a * c);
        assert(s1 + x * s0 + (a + b) * (x * c) == (s1 + b * (x * c)) + x * (s0 + a * c)) by (nonlinear_arith);
    }
}

/// The binomial theorem for `(x + 1)^n`.
pub proof fn lemma_binomial(x: int, n: nat)
    ensures
        pow(x + 1, n) == binom_sum(x, n, n + 1),
    decreases n,
{
    lemma_pow_succ(x + 1, 0);
    lemma_pow_succ(x, 0);
    assert(binom_sum(x, n, 0) == 0);
    assert(binom(n, 0) == 1);
    if n > 0 {
        let m = (n - 1) as nat;
        lemma_binomial(x, m);
        lemma_pascal_sum(x, m, n + 1);
        lemma_binom_above(m, n);
        lemma_pow_succ(x + 1, m);
        assert(binom_sum(x, m, n + 1) == binom_sum(x, m, n));
        assert((x + 1) * binom_sum(x, m, n) == binom_sum(x, m, n) + x * binom_sum(x, m, n)) by (nonlinear_arith);
    }
}

/// `k * binom(n, k) == n * binom(n - 1, k - 1)`.
proof fn lemma_absorption(n: nat, k: nat)
    requires
        n >= 1,
        k >= 1,
    ensures
        k * binom(n, k) == n * binom((n - 1) as nat, (k - 1) as nat),
    decreases n,
{
    if n == 1 {
        if k >= 2 {
            lemma_binom_above(0, (k - 1) as nat);
            lemma_binom_above(0, k);
        } else {
            assert(binom(0, 0) == 1);
            assert(binom(0, 1) == 0);
            assert(binom(1, 1) == 1);
        }
    } else {
        let (n1, k1) = ((n - 1) as nat, (k - 1) as nat);
        lemma_absorption(n1, k);
        if k == 1 {
            assert(binom((n1 - 1) as nat, 0) == 1);
            lemma_absorption(n1, 1);
            assert(1 * binom(n1, 1) == n1 * binom((n1 - 1) as nat, 0));
            assert(n1 * binom((n1 - 1) as nat, 0) == n1 * 1);
            assert(1 * binom(n1, 1) == binom(n1, 1));
            assert(binom(n1, 1) == n1);
            assert(binom(n1, 0) == 1);
            assert(binom(n, 1) == binom(n1, 0) + binom(n1, 1));
        } else {
            lemma_absorption(n1, k1);
            let (a, b, c, d) = (binom(n1, k1) as int, binom(n1, k) as int, binom((n1 - 1) as nat, (k1 - 1) as nat) as int, binom((n1 - 1) as nat, k1) as int);
            assert(binom(n, k) == a + b);
            assert(a == c + d);
            assert(k * (a + b) == n * a) by (nonlinear_arith)
                requires
                    (k - 1) * a == (n - 1) * c,
                    k * b == (n - 1) * d,
                    a == c + d,
            ;
        }
    }
}

/// A prime divides `binom(p, k)` for `0 < k < p`.
proof fn lemma_prime_divides_binom(p: nat, k: nat)
    requires
        is_prime(p),
        1 <= k < p,
    ensures
        binom(p, k) % p == 0,
{
    lemma_absorption(p, k);
    lemma_mod_multiples_basic(binom((p - 1) as nat, (k - 1) as nat) as int, p as int);
    assert((k * binom(p, k)) % p == 0) by (nonlinear_arith)
        requires
            k * binom(p, k) == p * binom((p - 1) as nat, (k - 1) as nat),
            ((binom((p - 1) as nat, (k - 1) as nat) * p) as int) % (p as int) == 0,
    ;
    vstd::arithmetic::div_mod::lemma_small_mod(k, p);
    lemma_euclid(p, k, binom(p, k));
}

/// The middle terms of `(a + 1)^p` are multiples of `p`.
proof fn lemma_middle_terms(a: nat, p: nat, k: nat)
    requires
        is_prime(p),
        1 <= k <= p,
    ensures
        (binom_sum(a as int, p, k) - 1) % (p as int) == 0,
    decreases k,
{
    lemma_pow_succ(a as int, 0);
    if k == 1 {
        assert(binom_sum(a as int, p, 0) == 0);
        assert(binom(p, 0) == 1);
        assert(binom_sum(a as int, p, 1) == 1);
    } else {
        let j = (k - 1) as nat;
        lemma_middle_terms(a, p, j);
        lemma_prime_divides_binom(p, j);
        lemma_fundamental_div_mod(binom(p, j) as int, p as int);
        lemma_fundamental_div_mod(binom_sum(a as int, p, j) - 1, p as int);
        let t = binom(p, j) as int / (p as int);
        let s = (binom_sum(a as int, p, j) - 1) / (p as int);
        let w = pow(a as int, j);
        assert(binom_sum(a as int, p, k) - 1 == (s + t * w) * p) by (nonlinear_arith)
            requires
                binom_sum(a as int, p, k) == binom_sum(a as int, p, j) + binom(p, j) * w,
                binom(p, j) as int == p * t,
                binom_sum(a as int, p, j) - 1 == p * s,
        ;
        lemma_mod_multiples_basic(s + t * w, p as int);
    }
}

/// Fermat's little theorem: `a^p == a (mod p)` for a prime `p`.
pub proof fn lemma_fermat(a: nat, p: nat)
    requires
        is_prime(p),
    ensures
        (pow(a as int, p) - a) % (p as int) == 0,
    decreases a,
{
    if a == 0 {
        lemma_pow_succ(0, (p - 1) as nat);
        assert(pow(0, p) == 0);
        assert(0int % (p as int) == 0);
    } else {
        let b = (a - 1) as nat;
        lemma_fermat(b, p);
        lemma_binomial(b as int, p);
        lemma_binom_diag(p);
        lemma_middle_terms(b, p, p);
        lemma_fundamental_div_mod(pow(b as int, p) - b, p as int);
        lemma_fundamental_div_mod(binom_sum(b as int, p, p) - 1, p as int);
        let s = (pow(b as int, p) - b) / (p as int);
        let t = (binom_sum(b as int, p, p) - 1) / (p as int);
        assert(binom_sum(b as int, p, p + 1) == binom_sum(b as int, p, p) + binom(p, p) * pow(b as int, p));
        assert(b as int + 1 == a as int);
        assert(pow(a as int, p) - a == (s + t) * p) by (nonlinear_arith)
            requires
                pow(a as int, p) == binom_sum(b as int, p, p) + pow(b as int, p),
                pow(b as int, p) - b == p * s,
                binom_sum(b as int, p, p) - 1 == p * t,
                a == b + 1,
        ;
        lemma_mod_multiples_basic(s + t, p as int);
    }
}

/// For `a` not divisible by the prime `p`: `a^(p-1) == 1 (mod p)`.
pub proof fn lemma_fermat_unit(a: nat, p: nat)
    requires
        is_prime(p),
        a % p != 0,
    ensures
        pow(a as int, (p - 1) as nat) % (p as int) == 1,
{
    lemma_fermat(a, p);
    lemma_pow_succ(a as int, (p - 1) as nat);
    let w = pow(a as int, (p - 1) as nat);
    assert(a > 0);
    lemma_pow_positive(a as int, (p - 1) as nat);
    let b = (w - 1) as nat;
    assert(a * b == pow(a as int, p) - a) by (nonlinear_arith)
        requires
            pow(a as int, p) == a * w,
            b == w - 1,
    ;
    lemma_euclid(p, a, b);
    lemma_fundamental_div_mod(b as int, p as int);
    lemma_mod_multiples_vanish(b as int / p as int, 1, p as int);
    lemma_small_mod(1, p);
    assert(w == p * (b as int / p as int) + 1);
}

/// `m^(1 + (p-1) k) == m (mod p)` for a prime `p`, whether or not `p`
/// divides `m`.
proof fn lemma_exponent_mod_prime(m: nat, p: nat, k: nat)
    requires
        is_prime(p),
    ensures
        pow(m as int, (1 + (p - 1) * k) as nat) % (p as int) == (m as int) % (p as int),
{
    let e = ((p - 1) * k) as nat;
    lemma_pow_adds(m as int, 1, e);
    vstd::arithmetic::power::lemma_pow1(m as int);
    let big = pow(m as int, e);
    lemma_mul_mod_noop_general(m as int, big, p as int);
    if m % p == 0 {
        lemma_fundamental_div_mod(m as int, p as int);
        let j = m as int / p as int;
        assert(m * big == (j * big) * p) by (nonlinear_arith)
            requires
                m == p * j,
        ;
        lemma_mod_multiples_basic(j * big, p as int);
    } else {
        lemma_fermat_unit(m, p);
        lemma_pow_multiplies(m as int, (p - 1) as nat, k);
        lemma_pow_mod_noop(pow(m as int, (p - 1) as nat), k, p as int);
        lemma1_pow(k);
        lemma_small_mod(1, p);
        assert(big % (p as int) == 1);
        assert((m % p) as int * 1 == (m % p) as int);
        vstd::arithmetic::div_mod::lemma_mod_twice(m as int, p as int);
    }
}

/// Two distinct primes that both divide `x` divide it together.
proof fn lemma_two_primes_divide(x: nat, p: nat, q: nat)
    requires
        is_prime(p),
        is_prime(q),
        p != q,
        x % p == 0,
        x % q == 0,
    ensures
        x % (p * q) == 0,
{
    lemma_fundamental_div_mod(x as int, p as int);
    let s = x / p;
    assert(x == p * s);
    if p < q {
        lemma_small_mod(p, q);
    } else {
        assert(p % q != 0);
    }
    lemma_euclid(q, p, s);
    lemma_fundamental_div_mod(s as int, q as int);
    let t = s / q;
    assert(x == t * (p * q)) by (nonlinear_arith)
        requires
            x == p * s,
            s == q * t,
    ;
    assert(p * q > 0) by (nonlinear_arith)
        requires
            p >= 2,
            q >= 2,
    ;
    lemma_mod_multiples_basic(t as int, (p * q) as int);
}

/// Exponents inverse to each other modulo `(p-1)(q-1)` undo each other
/// modulo `p*q`, for distinct primes `p` and `q` and a residue `m`.
pub proof fn lemma_inverse_exponents(m: nat, p: nat, q: nat, e: nat, d: nat)
    requires
        is_prime(p),
        is_prime(q),
        p != q,
        m < p * q,
        (e * d) % (((p - 1) * (q - 1)) as nat) == 1,
    ensures
        mod_pow(mod_pow(m, e, p * q), d, p * q) == m,
{
    let n = p * q;
    let phi = ((p - 1) * (q - 1)) as nat;
    assert(phi > 0) by (nonlinear_arith)
        requires
            p >= 2,
            q >= 2,
            phi == (p - 1) * (q - 1),
    ;
    lemma_fundamental_div_mod((e * d) as int, phi as int);
    let k = ((e * d) / phi) as nat;
    assert(e * d == 1 + (p - 1) * (k * (q - 1))) by (nonlinear_arith)
        requires
            e * d == phi * k + 1,
            phi == (p - 1) * (q - 1),
    ;
    assert(e * d == 1 + (q - 1) * (k * (p - 1))) by (nonlinear_arith)
        requires
            e * d == phi * k + 1,
            phi == (p - 1) * (q - 1),
    ;
    let ed = (e * d) as nat;
    let kq = (k * (q - 1)) as nat;
    let kp = (k * (p - 1)) as nat;
    assert((1 + (p - 1) * kq) as nat == ed);
    assert((1 + (q - 1) * kp) as nat == ed);
    lemma_exponent_mod_prime(m, p, kq);
    lemma_exponent_mod_prime(m, q, kp);
    let y = pow(m as int, ed);
    if m > 0 {
        lemma_pow_increases(m, 1, ed);
        vstd::arithmetic::power::lemma_pow1(m as int);
    } else {
        lemma_pow_succ(0, (ed - 1) as nat);
    }
    assert(y >= m);
    let x = (y - m) as nat;
    assert(y % (p as int) == (m as int) % (p as int));
    vstd::arithmetic::div_mod::lemma_sub_mod_noop(y, m as int, p as int);
    assert(((y % (p as int)) - ((m as int) % (p as int))) % (p as int) == (y - m) % (p as int));
    assert(0int % (p as int) == 0);
    assert(x % p == 0);
    assert(y % (q as int) == (m as int) % (q as int));
    vstd::arithmetic::div_mod::lemma_sub_mod_noop(y, m as int, q as int);
    assert(((y % (q as int)) - ((m as int) % (q as int))) % (q as int) == (y - m) % (q as int));
    assert(0int % (q as int) == 0);
    assert(x % q == 0);
    lemma_two_primes_divide(x, p, q);
    lemma_fundamental_div_mod(x as int, n as int);
    lemma_mod_multiples_vanish(x as int / n as int, m as int, n as int);
    lemma_small_mod(m, n);
    assert(y % (n as int) == m);
    lemma_pow_mod_noop(pow(m as int, e), d, n as int);
    lemma_pow_multiplies(m as int, e, d);
    vstd::arithmetic::div_mod::lemma_mod_bound(pow(m as int, e), n as int);
}

/// Textbook RSA is correct: for keys built from two primes, decrypting the
/// encryption of a message below the modulus gives the message back.
pub proof fn lemma_rsa_round_trip(pk: PublicKey, sk: PrivateKey, p: nat, q: nat, m: nat)
    requires
        keys_from_primes(pk, sk, p, q),
        is_prime(p),
        is_prime(q),
        m < pk.n@,
    ensures
        mod_pow(mod_pow(m, pk.e@, pk.n@), sk.d@, sk.n@) == m,
{
    lemma_inverse_exponents(m, p, q, pk.e@, sk.d@);
}

/// Signing undoes verifying: the private transform followed by the public one
/// gives back any value below the modulus.
pub proof fn lemma_rsa_sign_round_trip(pk: PublicKey, sk: PrivateKey, p: nat, q: nat, m: nat)
    requires
        keys_from_primes(pk, sk, p, q),
        is_prime(p),
        is_prime(q),
        m < pk.n@,
    ensures
        mod_pow(mod_pow(m, sk.d@, sk.n@), pk.e@, pk.n@) == m,
{
    assert(sk.d@ * pk.e@ == pk.e@ * sk.d@) by (nonlinear_arith);
    lemma_inverse_exponents(m, p, q, sk.d@, pk.e@);
}

} // verus!
