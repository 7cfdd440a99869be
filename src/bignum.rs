//! Arbitrary-precision integers held as plain limbs, with arithmetic done by
//! `num-bigint`.
use num_bigint::{BigInt, BigUint, Sign};
use vstd::prelude::*;

verus! {

/// Base of one limb.
pub open spec fn limb_base() -> nat {
    0x1_0000_0000
}

/// Value of little-endian base-2^32 limbs.
pub open spec fn limbs_value(s: Seq<u32>) -> nat
    decreases s.len(),
{
    if s.len() == 0 {
        0
    } else {
        s[0] as nat + limb_base() * limbs_value(s.drop_first())
    }
}

/// A non-negative integer of any size; limb `i` weighs 2^(32 i).
#[derive(Debug)]
pub struct BigNat {
    pub limbs: Vec<u32>,
}

impl View for BigNat {
    type V = nat;

    open spec fn view(&self) -> nat {
        limbs_value(self.limbs@)
    }
}

impl Clone for BigNat {
    fn clone(&self) -> (r: Self)
        ensures
            r@ == self@,
    {
        BigNat { limbs: self.limbs.clone() }
    }
}

impl PartialEq for BigNat {
    fn eq(&self, o: &BigNat) -> (r: bool) {
        self.equals(o)
    }
}

impl vstd::std_specs::cmp::PartialEqSpecImpl for BigNat {
    open spec fn obeys_eq_spec() -> bool {
        true
    }

    open spec fn eq_spec(&self, o: &BigNat) -> bool {
        self@ == o@
    }
}

impl Eq for BigNat {}

impl BigNat {
    pub fn zero() -> (r: BigNat)
        ensures
            r@ == 0,
    {
        BigNat { limbs: Vec::new() }
    }

    pub fn from_u64(v: u64) -> (r: BigNat)
        ensures
            r@ == v,
    {
        let lo: u32 = (v % 0x1_0000_0000) as u32;
        let hi: u32 = (v / 0x1_0000_0000) as u32;
        let mut limbs: Vec<u32> = Vec::new();
        limbs.push(lo);
        limbs.push(hi);
        proof {
            let s = limbs@;
            assert(s.drop_first().drop_first() =~= Seq::<u32>::empty());
            assert(limbs_value(s.drop_first().drop_first()) == 0);
            assert(s.drop_first()[0] == hi);
            assert(limbs_value(s.drop_first()) == hi as nat);
            assert(limbs_value(s) == lo as nat + limb_base() * hi as nat);
        }
        BigNat { limbs }
    }

    pub fn equals(&self, o: &BigNat) -> (r: bool)
        ensures
            r == (self@ == o@),
    {
        match compare(self, o) {
            core::cmp::Ordering::Equal => true,
            _ => false,
        }
    }

    pub fn less_than(&self, o: &BigNat) -> (r: bool)
        ensures
            r == (self@ < o@),
    {
        match compare(self, o) {
            core::cmp::Ordering::Less => true,
            _ => false,
        }
    }

    pub fn is_zero(&self) -> (r: bool)
        ensures
            r == (self@ == 0),
    {
        self.equals(&BigNat::zero())
    }

    pub fn is_odd(&self) -> (r: bool)
        ensures
            r == (self@ % 2 == 1),
    {
        let two = BigNat::from_u64(2);
        let m = rem_nat(self, &two);
        !m.is_zero()
    }
}

/// Relies on `Ord::cmp` of `num_bigint::BigUint`, which orders by value; the
/// limbs go in through `BigUint::new` (least significant first).
#[verifier::external_body]
pub(crate) fn compare(a: &BigNat, b: &BigNat) -> (r: core::cmp::Ordering)
    ensures
        r == core::cmp::Ordering::Less <==> a@ < b@,
        r == core::cmp::Ordering::Equal <==> a@ == b@,
        r == core::cmp::Ordering::Greater <==> a@ > b@,
{
    BigUint::new(a.limbs.clone()).cmp(&BigUint::new(b.limbs.clone()))
}

/// Relies on `Add` of `num_bigint::BigUint`: the exact sum. Results come back
/// through `BigUint::to_u32_digits` (least significant first).
#[verifier::external_body]
pub(crate) fn add_nat(a: &BigNat, b: &BigNat) -> (r: BigNat)
    ensures
        r@ == a@ + b@,
{
    let x = BigUint::new(a.limbs.clone()) + BigUint::new(b.limbs.clone());
    BigNat { limbs: x.to_u32_digits() }
}

/// Relies on `Sub` of `num_bigint::BigUint`: the exact difference; it panics
/// when the result would be negative, which `requires` rules out.
#[verifier::external_body]
pub(crate) fn sub_nat(a: &BigNat, b: &BigNat) -> (r: BigNat)
    requires
        b@ <= a@,
    ensures
        r@ == a@ - b@,
{
    let x = BigUint::new(a.limbs.clone()) - BigUint::new(b.limbs.clone());
    BigNat { limbs: x.to_u32_digits() }
}

/// Relies on `Mul` of `num_bigint::BigUint`: the exact product.
#[verifier::external_body]
pub(crate) fn mul_nat(a: &BigNat, b: &BigNat) -> (r: BigNat)
    ensures
        r@ == a@ * b@,
{
    let x = BigUint::new(a.limbs.clone()) * BigUint::new(b.limbs.clone());
    BigNat { limbs: x.to_u32_digits() }
}

/// Relies on `Div` of `num_bigint::BigUint`: the floor quotient; it panics on a
/// zero divisor, which `requires` rules out.
#[verifier::external_body]
pub(crate) fn div_nat(a: &BigNat, b: &BigNat) -> (r: BigNat)
    requires
        b@ != 0,
    ensures
        r@ == a@ / b@,
{
    let x = BigUint::new(a.limbs.clone()) / BigUint::new(b.limbs.clone());
    BigNat { limbs: x.to_u32_digits() }
}

/// Relies on `Rem` of `num_bigint::BigUint`: the remainder of the floor
/// division; it panics on a zero divisor, which `requires` rules out.
#[verifier::external_body]
pub(crate) fn rem_nat(a: &BigNat, b: &BigNat) -> (r: BigNat)
    requires
        b@ != 0,
    ensures
        r@ == a@ % b@,
{
    let x = BigUint::new(a.limbs.clone()) % BigUint::new(b.limbs.clone());
    BigNat { limbs: x.to_u32_digits() }
}


/// A signed integer of any size: a sign flag over a magnitude. A set flag on a
/// zero magnitude still means zero.
#[derive(Debug)]
pub struct BigSigned {
    pub negative: bool,
    pub magnitude: BigNat,
}

impl View for BigSigned {
    type V = int;

    open spec fn view(&self) -> int {
        if self.negative {
            -(self.magnitude@ as int)
        } else {
            self.magnitude@ as int
        }
    }
}

impl BigSigned {
    pub fn from_nat(v: BigNat) -> (r: BigSigned)
        ensures
            r@ == v@,
    {
        BigSigned { negative: false, magnitude: v }
    }

    pub fn from_i64(v: i64) -> (r: BigSigned)
        ensures
            r@ == v,
    {
        if v < 0 {
            let m: u64 = if v == i64::MIN { 0x8000_0000_0000_0000u64 } else { (-v) as u64 };
            BigSigned { negative: true, magnitude: BigNat::from_u64(m) }
        } else {
            BigSigned { negative: false, magnitude: BigNat::from_u64(v as u64) }
        }
    }

    pub fn is_negative(&self) -> (r: bool)
        ensures
            r == (self@ < 0),
    {
        self.negative && !self.magnitude.is_zero()
    }
}

/// Relies on `Add` of `num_bigint::BigInt`: the exact sum. Values cross as
/// `BigInt::from_biguint` (sign, magnitude) and come back by `into_parts`.
#[verifier::external_body]
pub(crate) fn add_int(a: &BigSigned, b: &BigSigned) -> (r: BigSigned)
    ensures
        r@ == a@ + b@,
{
    let sa = if a.negative { Sign::Minus } else { Sign::Plus };
    let sb = if b.negative { Sign::Minus } else { Sign::Plus };
    let x = BigInt::from_biguint(sa, BigUint::new(a.magnitude.limbs.clone()))
        + BigInt::from_biguint(sb, BigUint::new(b.magnitude.limbs.clone()));
    let (s, m) = x.into_parts();
    BigSigned { negative: s == Sign::Minus, magnitude: BigNat { limbs: m.to_u32_digits() } }
}

/// Relies on `Sub` of `num_bigint::BigInt`: the exact difference.
#[verifier::external_body]
pub(crate) fn sub_int(a: &BigSigned, b: &BigSigned) -> (r: BigSigned)
    ensures
        r@ == a@ - b@,
{
    let sa = if a.negative { Sign::Minus } else { Sign::Plus };
    let sb = if b.negative { Sign::Minus } else { Sign::Plus };
    let x = BigInt::from_biguint(sa, BigUint::new(a.magnitude.limbs.clone()))
        - BigInt::from_biguint(sb, BigUint::new(b.magnitude.limbs.clone()));
    let (s, m) = x.into_parts();
    BigSigned { negative: s == Sign::Minus, magnitude: BigNat { limbs: m.to_u32_digits() } }
}

/// Relies on `Mul` of `num_bigint::BigInt`: the exact product.
#[verifier::external_body]
pub(crate) fn mul_int(a: &BigSigned, b: &BigSigned) -> (r: BigSigned)
    ensures
        r@ == a@ * b@,
{
    let sa = if a.negative { Sign::Minus } else { Sign::Plus };
    let sb = if b.negative { Sign::Minus } else { Sign::Plus };
    let x = BigInt::from_biguint(sa, BigUint::new(a.magnitude.limbs.clone()))
        * BigInt::from_biguint(sb, BigUint::new(b.magnitude.limbs.clone()));
    let (s, m) = x.into_parts();
    BigSigned { negative: s == Sign::Minus, magnitude: BigNat { limbs: m.to_u32_digits() } }
}

/// Relies on `Rem` of `num_bigint::BigInt`: the remainder of the division
/// rounded toward zero, which takes the sign of the dividend; it panics on a
/// zero divisor, which `requires` rules out.
#[verifier::external_body]
pub(crate) fn rem_int(a: &BigSigned, m: &BigSigned) -> (r: BigSigned)
    requires
        m@ > 0,
    ensures
        a@ >= 0 ==> r@ == a@ % m@,
        a@ < 0 ==> r@ == -((-a@) % m@),
{
    let sa = if a.negative { Sign::Minus } else { Sign::Plus };
    let x = BigInt::from_biguint(sa, BigUint::new(a.magnitude.limbs.clone()))
        % BigInt::from_biguint(Sign::Plus, BigUint::new(m.magnitude.limbs.clone()));
    let (s, mag) = x.into_parts();
    BigSigned { negative: s == Sign::Minus, magnitude: BigNat { limbs: mag.to_u32_digits() } }
}

/// Value of big-endian bytes.
pub open spec fn be_value(s: Seq<u8>) -> nat
    decreases s.len(),
{
    if s.len() == 0 {
        0
    } else {
        be_value(s.drop_last()) * 256 + s.last() as nat
    }
}

/// The shortest big-endian bytes of `x`; zero is one zero byte.
pub open spec fn be_bytes(x: nat) -> Seq<u8>
    decreases x,
{
    if x < 256 {
        seq![x as u8]
    } else {
        be_bytes(x / 256).push((x % 256) as u8)
    }
}

/// Reading back the shortest big-endian bytes gives the value.
pub proof fn lemma_be_round_trip(x: nat)
    ensures
        be_value(be_bytes(x)) == x,
        be_bytes(x).len() >= 1,
    decreases x,
{
    if x < 256 {
        assert(seq![x as u8].drop_last() =~= Seq::<u8>::empty());
        assert(be_value(Seq::<u8>::empty()) == 0);
        assert(seq![x as u8].last() as nat == x);
    } else {
        lemma_be_round_trip(x / 256);
        let b = be_bytes(x / 256).push((x % 256) as u8);
        assert(b.drop_last() =~= be_bytes(x / 256));
        assert(b.last() as nat == x % 256);
        assert(be_value(b) == (x / 256) * 256 + x % 256);
    }
}

/// A smaller value takes no more bytes.
pub proof fn lemma_be_bytes_monotone(x: nat, y: nat)
    requires
        x <= y,
    ensures
        be_bytes(x).len() <= be_bytes(y).len(),
    decreases y,
{
    lemma_be_round_trip(y);
    if y >= 256 && x >= 256 {
        lemma_be_bytes_monotone(x / 256, y / 256);
    }
}

/// `n` zero bytes.
pub open spec fn zeros(n: nat) -> Seq<u8> {
    Seq::new(n, |i: int| 0u8)
}

proof fn lemma_zero_value(s: Seq<u8>)
    requires
        be_value(s) == 0,
    ensures
        s =~= zeros(s.len()),
    decreases s.len(),
{
    if s.len() > 0 {
        lemma_zero_value(s.drop_last());
        assert(s =~= s.drop_last().push(s.last()));
    }
}

/// The shortest bytes of a value read from `s`, with zero bytes put back in
/// front, give `s` again.
pub proof fn lemma_be_bytes_of_value(s: Seq<u8>)
    requires
        s.len() >= 1,
    ensures
        be_bytes(be_value(s)).len() <= s.len(),
        zeros((s.len() - be_bytes(be_value(s)).len()) as nat) + be_bytes(be_value(s)) == s,
    decreases s.len(),
{
    let v = be_value(s);
    let init = s.drop_last();
    let c = s.last();
    assert(s =~= init.push(c));
    if v < 256 {
        assert(be_value(init) == 0);
        lemma_zero_value(init);
        assert(v == c);
        assert(zeros((s.len() - 1) as nat) + seq![c] =~= s);
    } else {
        let w = be_value(init);
        assert(w >= 1);
        assert(v / 256 == w);
        assert(v % 256 == c);
        if init.len() == 0 {
            assert(false);
        }
        lemma_be_bytes_of_value(init);
        let b = be_bytes(w);
        assert(be_bytes(v) == b.push(c));
        assert(zeros((s.len() - b.len() - 1) as nat) + b.push(c) =~= (zeros((init.len() - b.len()) as nat) + b).push(c));
    }
}

/// Relies on `BigUint::from_bytes_be`: the value of big-endian bytes.
#[verifier::external_body]
pub(crate) fn from_bytes_be(bytes: &[u8]) -> (r: BigNat)
    ensures
        r@ == be_value(bytes@),
{
    BigNat { limbs: BigUint::from_bytes_be(bytes).to_u32_digits() }
}

/// Relies on `BigUint::to_bytes_be`: big-endian bytes without leading zeros,
/// and a single zero byte for zero.
#[verifier::external_body]
pub(crate) fn to_bytes_be(x: &BigNat) -> (r: Vec<u8>)
    ensures
        r@ == be_bytes(x@),
{
    BigUint::new(x.limbs.clone()).to_bytes_be()
}

} // verus!
