//! Miller-Rabin probabilistic primality test.
use crate::bignum::{add_nat, div_nat, sub_nat, BigNat};
use crate::fermat::lemma_fermat_unit;
use crate::modular_arith::{mod_exp, mod_pow};
use crate::number_theory::{is_prime, lemma_euclid};
use num_bigint::RandBigInt;
use vstd::arithmetic::power::{lemma_pow_mod_noop, lemma_pow_multiplies, lemma_square_is_pow2, pow};
use vstd::arithmetic::power2::{lemma_pow2_unfold, pow2};
use vstd::prelude::*;

verus! {

/// How many times 2 divides `m` (zero for `m == 0`).
pub open spec fn two_valuation(m: nat) -> nat
    decreases m,
{
    if m > 0 && m % 2 == 0 {
        1 + two_valuation(m / 2)
    } else {
        0
    }
}

/// `m` with every factor 2 taken out (zero for `m == 0`).
pub open spec fn odd_part(m: nat) -> nat
    decreases m,
{
    if m > 0 && m % 2 == 0 {
        odd_part(m / 2)
    } else {
        m
    }
}

/// With `n - 1 == 2^s * d`, `d` odd: the witness `a` lets `n` pass when
/// `a^d == 1 (mod n)` or `a^(d * 2^i) == n - 1 (mod n)` for some `i < s`.
pub open spec fn witness_passes(n: nat, a: nat) -> bool {
    let d = odd_part((n - 1) as nat);
    let s = two_valuation((n - 1) as nat);
    mod_pow(a, d, n) == 1 || exists|i: nat|
        i < s && #[trigger] mod_pow(a, d * pow2(i), n) == n - 1
}

/// Squaring a power modulo `n` doubles the exponent.
proof fn lemma_square_mod_pow(a: nat, e: nat, n: nat)
    requires
        n > 0,
    ensures
        mod_pow(mod_pow(a, e, n), 2, n) == mod_pow(a, e * 2, n),
{
    let p = pow(a as int, e);
    lemma_pow_mod_noop(p, 2, n as int);
    lemma_pow_multiplies(a as int, e, 2);
    vstd::arithmetic::div_mod::lemma_mod_bound(p, n as int);
}

/// `m == odd_part(m) * 2^two_valuation(m)`.
proof fn lemma_split_twos(m: nat)
    ensures
        odd_part(m) * pow2(two_valuation(m)) == m,
    decreases m,
{
    if m > 0 && m % 2 == 0 {
        lemma_split_twos(m / 2);
        lemma_pow2_unfold(two_valuation(m));
        let (o, t) = (odd_part(m / 2), pow2(two_valuation(m / 2)));
        assert(odd_part(m) == o);
        assert(two_valuation(m) == 1 + two_valuation(m / 2));
        assert(pow2(two_valuation(m)) == 2 * t);
        assert(o * (2 * t) == 2 * (o * t)) by (nonlinear_arith);
        assert(2 * (m / 2) == m);
    } else {
        vstd::arithmetic::power2::lemma2_to64();
        assert(odd_part(m) == m);
        assert(two_valuation(m) == 0);
        assert(pow2(0) == 1);
        assert(m * 1 == m);
    }
}

/// Modulo a prime, the only square roots of 1 are 1 and -1.
proof fn lemma_roots_of_one(x: nat, n: nat)
    requires
        is_prime(n),
        x < n,
        (x * x) % n == 1,
    ensures
        x == 1 || x == n - 1,
{
    if x == 0 {
        assert(0nat % n == 0) by {
            vstd::arithmetic::div_mod::lemma_small_mod(0, n);
        }
    }
    if x != 1 {
        vstd::arithmetic::div_mod::lemma_fundamental_div_mod((x * x) as int, n as int);
        let t = (x * x) / n;
        assert(((x - 1) * (x + 1)) as nat == t * n) by (nonlinear_arith)
            requires
                x * x == n * t + 1,
                x >= 1,
        ;
        vstd::arithmetic::div_mod::lemma_mod_multiples_basic(t as int, n as int);
        vstd::arithmetic::div_mod::lemma_small_mod((x - 1) as nat, n);
        lemma_euclid(n, (x - 1) as nat, x + 1);
        if x + 1 < n {
            vstd::arithmetic::div_mod::lemma_small_mod(x + 1, n);
        }
    }
}

/// If `a^(d 2^j) == 1 (mod n)` for a prime `n`, the chain below it reaches 1
/// at `a^d` or passes through `n - 1`.
proof fn lemma_chain(n: nat, a: nat, d: nat, j: nat)
    requires
        is_prime(n),
        mod_pow(a, d * pow2(j), n) == 1,
    ensures
        mod_pow(a, d, n) == 1 || exists|i: nat| i < j && #[trigger] mod_pow(a, d * pow2(i), n) == n - 1,
    decreases j,
{
    vstd::arithmetic::power2::lemma2_to64();
    if j > 0 {
        let jm = (j - 1) as nat;
        let x = mod_pow(a, d * pow2(jm), n);
        lemma_square_mod_pow(a, d * pow2(jm), n);
        lemma_pow2_unfold(j);
        assert(d * pow2(jm) * 2 == d * pow2(j)) by (nonlinear_arith)
            requires
                pow2(j) == 2 * pow2(jm),
        ;
        lemma_square_is_pow2(x as int);
        vstd::arithmetic::div_mod::lemma_mod_bound(pow(a as int, d * pow2(jm)), n as int);
        lemma_roots_of_one(x, n);
        if x == 1 {
            lemma_chain(n, a, d, jm);
        } else {
            assert(mod_pow(a, d * pow2(jm), n) == n - 1);
        }
    } else {
        assert(pow2(0) == 1);
        assert(d * pow2(0) == d);
    }
}

/// Every odd prime passes every witness in `[1, n)`; so `is_probably_prime`
/// returns `true` on every prime.
pub proof fn lemma_prime_passes(n: nat, a: nat)
    requires
        is_prime(n),
        n >= 3,
        n % 2 == 1,
        1 <= a < n,
    ensures
        witness_passes(n, a),
{
    let m = (n - 1) as nat;
    lemma_split_twos(m);
    vstd::arithmetic::div_mod::lemma_small_mod(a, n);
    lemma_fermat_unit(a, n);
    lemma_chain(n, a, odd_part(m), two_valuation(m));
}

/// Writes `m = 2^s * d` with `d` odd, for `m > 0`.
fn split_twos(m: &BigNat) -> (r: (BigNat, BigNat))
    requires
        m@ > 0,
    ensures
        r.0@ == odd_part(m@),
        r.1@ == two_valuation(m@),
{
    let two = BigNat::from_u64(2);
    let one = BigNat::from_u64(1);
    let mut d = m.clone();
    let mut s = BigNat::zero();
    while !d.is_odd()
        invariant
            two@ == 2,
            one@ == 1,
            d@ > 0,
            odd_part(d@) == odd_part(m@),
            s@ + two_valuation(d@) == two_valuation(m@),
        decreases d@,
    {
        d = div_nat(&d, &two);
        s = add_nat(&s, &one);
    }
    (d, s)
}

/// One round of the test: whether `a` lets `n` pass, given
/// `n - 1 == 2^s * d` with `d` odd.
fn witness_round(n: &BigNat, d: &BigNat, s: &BigNat, a: &BigNat) -> (r: bool)
    requires
        n@ >= 3,
        n@ % 2 == 1,
        d@ == odd_part((n@ - 1) as nat),
        s@ == two_valuation((n@ - 1) as nat),
    ensures
        r == witness_passes(n@, a@),
{
    let one = BigNat::from_u64(1);
    let two = BigNat::from_u64(2);
    let n_minus_one = sub_nat(n, &one);
    let mut x = match mod_exp(a.clone(), d.clone(), n) {
        Ok(v) => v,
        Err(_) => {
            return false;
        },
    };
    proof {
        assert(pow2(0) == 1) by {
            vstd::arithmetic::power2::lemma2_to64();
        }
        assert(d@ * pow2(0) == d@);
    }
    if x.equals(&one) || x.equals(&n_minus_one) {
        proof {
            if x@ == n@ - 1 && x@ != 1 {
                assert(s@ > 0);
                assert(mod_pow(a@, d@ * pow2(0), n@) == n@ - 1);
            }
        }
        return true;
    }
    let mut j = BigNat::from_u64(1);
    assert(s@ >= 1);
    while j.less_than(s)
        invariant
            n@ >= 3,
            n@ % 2 == 1,
            one@ == 1,
            two@ == 2,
            n_minus_one@ == n@ - 1,
            d@ == odd_part((n@ - 1) as nat),
            s@ == two_valuation((n@ - 1) as nat),
            1 <= j@,
            j@ <= s@,
            x@ == mod_pow(a@, d@ * pow2((j@ - 1) as nat), n@),
            mod_pow(a@, d@, n@) != 1,
            forall|i: nat| i < j@ ==> #[trigger] mod_pow(a@, d@ * pow2(i), n@) != n@ - 1,
        decreases s@ - j@,
    {
        x = match mod_exp(x, two.clone(), n) {
            Ok(v) => v,
            Err(_) => {
                return false;
            },
        };
        proof {
            lemma_square_mod_pow(a@, d@ * pow2((j@ - 1) as nat), n@);
            lemma_pow2_unfold(j@);
            assert(d@ * pow2((j@ - 1) as nat) * 2 == d@ * pow2(j@)) by (nonlinear_arith)
                requires
                    pow2(j@) == 2 * pow2((j@ - 1) as nat),
            ;
        }
        if x.equals(&n_minus_one) {
            return true;
        }
        j = add_nat(&j, &one);
    }
    proof {
        assert forall|i: nat| i < s@ implies #[trigger] mod_pow(a@, d@ * pow2(i), n@) != n@ - 1 by {
            assert(i < j@);
        }
    }
    false
}

/// Relies on `RandBigInt::gen_biguint_range` of `num-bigint` over `rand`'s
/// thread-local generator: a value in `[lo, hi)`; it panics unless `lo < hi`.
#[verifier::external_body]
fn random_in_range(lo: &BigNat, hi: &BigNat) -> (r: BigNat)
    requires
        lo@ < hi@,
    ensures
        lo@ <= r@ < hi@,
{
    let x = rand::thread_rng().gen_biguint_range(
        &num_bigint::BigUint::new(lo.limbs.clone()),
        &num_bigint::BigUint::new(hi.limbs.clone()),
    );
    BigNat { limbs: x.to_u32_digits() }
}

/// Whether the witness `a` lets the odd number `n >= 3` pass one round of the
/// Miller-Rabin test.
pub fn miller_rabin_witness(n: &BigNat, a: &BigNat) -> (r: bool)
    requires
        n@ >= 3,
        n@ % 2 == 1,
    ensures
        r == witness_passes(n@, a@),
{
    let n_minus_one = sub_nat(n, &BigNat::from_u64(1));
    let (d, s) = split_twos(&n_minus_one);
    witness_round(n, &d, &s, a)
}

/// Miller-Rabin test of `n` with the given witnesses: 2 and 3 pass, other
/// even numbers and numbers below 2 fail, and an odd `n >= 5` passes exactly
/// when every witness lets it pass.
pub fn miller_rabin_with_witnesses(n: &BigNat, witnesses: &Vec<BigNat>) -> (r: bool)
    ensures
        (n@ == 2 || n@ == 3) ==> r,
        (n@ < 2 || (n@ % 2 == 0 && n@ != 2)) ==> !r,
        (n@ >= 5 && n@ % 2 == 1) ==> (r == forall|i: int|
            0 <= i < witnesses@.len() ==> witness_passes(n@, #[trigger] witnesses@[i]@)),
{
    let one = BigNat::from_u64(1);
    let two = BigNat::from_u64(2);
    if n.equals(&two) || n.equals(&BigNat::from_u64(3)) {
        return true;
    }
    if n.less_than(&two) || !n.is_odd() {
        return false;
    }
    let n_minus_one = sub_nat(n, &one);
    let (d, s) = split_twos(&n_minus_one);
    let mut i: usize = 0;
    while i < witnesses.len()
        invariant
            n@ >= 5,
            n@ % 2 == 1,
            d@ == odd_part((n@ - 1) as nat),
            s@ == two_valuation((n@ - 1) as nat),
            i <= witnesses@.len(),
            forall|j: int| 0 <= j < i ==> witness_passes(n@, #[trigger] witnesses@[j]@),
        decreases witnesses@.len() - i,
    {
        if !witness_round(n, &d, &s, &witnesses[i]) {
            return false;
        }
        i = i + 1;
    }
    true
}

/// Miller-Rabin test with `k` rounds, each with a fresh random witness in
/// `[2, n - 1)`. For an odd `n >= 5`: a `false` comes with a witness that `n`
/// fails, and a `true` after at least one round with a witness that it
/// passes; where every witness passes the answer is `true`, and where none
/// does and `k >= 1` it is `false`.
pub fn is_probably_prime(n: &BigNat, k: u32) -> (r: bool)
    ensures
        (n@ == 2 || n@ == 3) ==> r,
        (n@ < 2 || (n@ % 2 == 0 && n@ != 2)) ==> !r,
        (n@ >= 5 && n@ % 2 == 1 && k == 0) ==> r,
        (n@ >= 5 && n@ % 2 == 1 && !r) ==> exists|a: nat|
            2 <= a < n@ - 1 && !#[trigger] witness_passes(n@, a),
        (n@ >= 5 && n@ % 2 == 1 && k >= 1 && r) ==> exists|a: nat|
            2 <= a < n@ - 1 && #[trigger] witness_passes(n@, a),
        (n@ >= 5 && n@ % 2 == 1 && forall|a: nat|
            2 <= a < n@ - 1 ==> #[trigger] witness_passes(n@, a)) ==> r,
        (n@ >= 5 && n@ % 2 == 1 && k >= 1 && forall|a: nat|
            2 <= a < n@ - 1 ==> !#[trigger] witness_passes(n@, a)) ==> !r,
{
    let one = BigNat::from_u64(1);
    let two = BigNat::from_u64(2);
    if n.less_than(&BigNat::from_u64(5)) || !n.is_odd() {
        let none: Vec<BigNat> = Vec::new();
        return miller_rabin_with_witnesses(n, &none);
    }
    let n_minus_one = sub_nat(n, &one);
    let mut witnesses: Vec<BigNat> = Vec::new();
    let mut i: u32 = 0;
    while i < k
        invariant
            n@ >= 5,
            two@ == 2,
            n_minus_one@ == n@ - 1,
            witnesses@.len() == i,
            i <= k,
            forall|j: int| 0 <= j < i ==> 2 <= #[trigger] witnesses@[j]@ < n@ - 1,
        decreases k - i,
    {
        let a = random_in_range(&two, &n_minus_one);
        witnesses.push(a);
        i = i + 1;
    }
    let r = miller_rabin_with_witnesses(n, &witnesses);
    proof {
        if k >= 1 {
            let w0 = witnesses@[0]@;
            assert(2 <= w0 < n@ - 1);
            if r {
                assert(witness_passes(n@, w0));
            } else {
                let j = choose|j: int| 0 <= j < witnesses@.len() && !witness_passes(n@, #[trigger] witnesses@[j]@);
                assert(2 <= witnesses@[j]@ < n@ - 1);
            }
        } else if !r {
            assert(false);
        }
        if !r {
            let j = choose|j: int| 0 <= j < witnesses@.len() && !witness_passes(n@, #[trigger] witnesses@[j]@);
            assert(2 <= witnesses@[j]@ < n@ - 1);
        }
    }
    r
}

} // verus!
