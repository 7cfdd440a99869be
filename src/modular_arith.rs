//! Modular exponentiation by square-and-multiply.
use crate::bignum::{mul_nat, rem_nat, BigNat};
use vstd::arithmetic::div_mod::{lemma_mod_bound, lemma_mul_mod_noop_left, lemma_mul_mod_noop_right};
use vstd::arithmetic::power::{lemma_pow_adds, lemma_pow_mod_noop, lemma_pow_multiplies, lemma_square_is_pow2, pow};
use vstd::prelude::*;

verus! {

/// Failures of the arithmetic operations.
#[derive(Debug, Clone, Copy, PartialEq, Eq, Structural)]
pub enum ArithmeticError {
    /// A modulus of zero.
    InvalidModulus,
    /// A division whose divisor is zero.
    DivisionByZero,
}

/// `base^exponent mod modulus`, for a positive modulus.
pub open spec fn mod_pow(base: nat, exponent: nat, modulus: nat) -> nat
    recommends
        modulus > 0,
{
    (pow(base as int, exponent) % (modulus as int)) as nat
}

/// One square-and-multiply step keeps `acc * base^e (mod m)`.
proof fn lemma_square_step(acc: int, b: int, e: nat, m: int)
    requires
        m > 0,
    ensures
        e % 2 == 1 ==> ((acc * b) % m) * pow((b * b) % m, e / 2) % m == acc * pow(b, e) % m,
        e % 2 == 0 ==> acc * pow((b * b) % m, e / 2) % m == acc * pow(b, e) % m,
{
    let h: nat = e / 2;
    let t: nat = e % 2;
    lemma_square_is_pow2(b);
    lemma_pow_multiplies(b, 2, h);
    lemma_pow_adds(b, 2 * h, t);
    assert(e == 2 * h + t);
    assert(pow(b, e) == pow(b * b, h) * pow(b, t));
    lemma_pow_mod_noop(b * b, h, m);
    let p = pow(b * b, h);
    lemma_mul_mod_noop_right(acc * pow(b, t), pow((b * b) % m, h), m);
    lemma_mul_mod_noop_right(acc * pow(b, t), p, m);
    assert(acc * pow(b, t) * p == acc * pow(b, e)) by (nonlinear_arith)
        requires
            pow(b, e) == p * pow(b, t),
    ;
    if t == 1 {
        assert(pow(b, 1) == b) by {
            reveal_with_fuel(pow, 2);
        }
        lemma_mul_mod_noop_left(acc * b, pow((b * b) % m, h), m);
    } else {
        assert(pow(b, 0) == 1) by {
            reveal_with_fuel(pow, 1);
        }
        assert(acc * pow(b, t) == acc);
    }
}

/// Computes `base^exponent mod modulus` by scanning the exponent's bits from
/// the least significant one; fails when the modulus is zero.
pub fn mod_exp(base: BigNat, exponent: BigNat, modulus: &BigNat) -> (r: Result<BigNat, ArithmeticError>)
    ensures
        modulus@ == 0 ==> r == Err::<BigNat, ArithmeticError>(ArithmeticError::InvalidModulus),
        modulus@ > 0 ==> (r matches Ok(v) && v@ == mod_pow(base@, exponent@, modulus@)),
{
    if modulus.is_zero() {
        return Err(ArithmeticError::InvalidModulus);
    }
    let ghost m = modulus@ as int;
    let ghost b0 = base@ as int;
    let ghost e0 = exponent@;
    let mut result = rem_nat(&BigNat::from_u64(1), modulus);
    let mut b = rem_nat(&base, modulus);
    let mut e = exponent;
    let two = BigNat::from_u64(2);
    proof {
        lemma_pow_mod_noop(b0, e0, m);
        lemma_mul_mod_noop_left(1, pow(b@ as int, e0), m);
    }
    while !e.is_zero()
        invariant
            m == modulus@ as int,
            m > 0,
            two@ == 2,
            result@ < m,
            (result@ * pow(b@ as int, e@)) % m == pow(b0, e0) % m,
        decreases e@,
    {
        proof {
            lemma_square_step(result@ as int, b@ as int, e@, m);
        }
        if e.is_odd() {
            result = rem_nat(&mul_nat(&result, &b), modulus);
        }
        let ghost old_b = b@ as int;
        e = crate::bignum::div_nat(&e, &two);
        b = rem_nat(&mul_nat(&b, &b), modulus);
        assert(b@ == (old_b * old_b) % m);
    }
    proof {
        assert(pow(b@ as int, 0) == 1) by {
            reveal_with_fuel(pow, 1);
        }
        lemma_mod_bound(result@ as int, m);
        vstd::arithmetic::div_mod::lemma_small_mod(result@, m as nat);
    }
    Ok(result)
}

} // verus!
