//! Greatest common divisors, Bezout coefficients, inverses modulo m, least
//! common multiples and Euler's totient.
use crate::bignum::{
    add_int, add_nat, div_nat, mul_int, mul_nat, rem_int, rem_nat, sub_int, sub_nat, BigNat,
    BigSigned,
};
use crate::modular_arith::ArithmeticError;
use vstd::arithmetic::div_mod::{
    lemma_fundamental_div_mod, lemma_mod_multiples_basic, lemma_mod_multiples_vanish,
};
use vstd::prelude::*;

verus! {

/// The greatest common divisor, by Euclid's recurrence; `gcd_of(a, 0) == a`.
pub open spec fn gcd_of(a: nat, b: nat) -> nat
    decreases b,
{
    if b == 0 {
        a
    } else {
        gcd_of(b, a % b)
    }
}

/// The gcd is zero only for two zeros.
pub proof fn lemma_gcd_zero(a: nat, b: nat)
    ensures
        gcd_of(a, b) == 0 <==> (a == 0 && b == 0),
    decreases b,
{
    if b != 0 {
        lemma_gcd_zero(b, a % b);
    }
}

/// Computes the greatest common divisor with Euclid's algorithm.
pub fn gcd(a: BigNat, b: BigNat) -> (r: BigNat)
    ensures
        r@ == gcd_of(a@, b@),
{
    let mut a = a;
    let mut b = b;
    let ghost g = gcd_of(a@, b@);
    while !b.is_zero()
        invariant
            gcd_of(a@, b@) == g,
        decreases b@,
    {
        let tmp = b.clone();
        b = rem_nat(&a, &tmp);
        a = tmp;
    }
    a
}

/// Absolute value.
pub open spec fn abs_int(x: int) -> int {
    if x < 0 {
        -x
    } else {
        x
    }
}

/// One step of the coefficient recurrence `new = old - q * cur`, with `old`
/// and `cur` of opposite signs (or zero), adds their sizes and keeps the
/// identity `|cur| * old_r + |old| * cur_r == bound`.
proof fn lemma_coefficient_step(old: int, cur: int, q: int, old_r: int, cur_r: int, bound: int)
    requires
        q >= 0,
        old * cur <= 0,
        abs_int(cur) * old_r + abs_int(old) * cur_r == bound,
    ensures
        abs_int(old - q * cur) == abs_int(old) + q * abs_int(cur),
        cur * (old - q * cur) <= 0,
        abs_int(old - q * cur) * cur_r + abs_int(cur) * (old_r - q * cur_r) == bound,
{
    if cur >= 0 && old <= 0 {
        assert(q * cur >= 0) by (nonlinear_arith)
            requires
                q >= 0,
                cur >= 0,
        ;
        assert(abs_int(old - q * cur) == abs_int(old) + q * abs_int(cur));
    } else {
        assert(cur <= 0 && old >= 0) by (nonlinear_arith)
            requires
                old * cur <= 0,
                !(cur >= 0 && old <= 0),
        ;
        assert(q * cur <= 0) by (nonlinear_arith)
            requires
                q >= 0,
                cur <= 0,
        ;
        assert(q * abs_int(cur) == -(q * cur)) by (nonlinear_arith)
            requires
                abs_int(cur) == -cur,
        ;
        assert(abs_int(old - q * cur) == abs_int(old) + q * abs_int(cur));
    }
    let (ao, ac) = (abs_int(old), abs_int(cur));
    assert((ao + q * ac) * cur_r + ac * (old_r - q * cur_r) == ac * old_r + ao * cur_r) by (nonlinear_arith);
    assert(cur * (old - q * cur) <= 0) by (nonlinear_arith)
        requires
            old * cur <= 0,
            q >= 0,
    ;
}

/// Computes `(g, x, y)` with `a*x + b*y == g == gcd(a, b)`; for positive `a`
/// and `b`, `|x| <= b / g` and `|y| <= a / g`.
pub fn extended_gcd(a: &BigNat, b: &BigNat) -> (r: (BigNat, BigSigned, BigSigned))
    ensures
        r.0@ == gcd_of(a@, b@),
        a@ * r.1@ + b@ * r.2@ == r.0@ as int,
        a@ > 0 && b@ > 0 ==> r.0@ > 0 && abs_int(r.1@) <= b@ / r.0@ && abs_int(r.2@) <= a@ / r.0@,
{
    let mut old_r = a.clone();
    let mut r = b.clone();
    let mut old_s = BigSigned::from_i64(1);
    let mut s = BigSigned::from_i64(0);
    let mut old_t = BigSigned::from_i64(0);
    let mut t = BigSigned::from_i64(1);
    let ghost ai = a@ as int;
    let ghost bi = b@ as int;
    while !r.is_zero()
        invariant
            ai == a@ as int,
            bi == b@ as int,
            ai * old_s@ + bi * old_t@ == old_r@ as int,
            ai * s@ + bi * t@ == r@ as int,
            gcd_of(old_r@, r@) == gcd_of(a@, b@),
            abs_int(s@) * old_r@ + abs_int(old_s@) * r@ == bi,
            abs_int(t@) * old_r@ + abs_int(old_t@) * r@ == ai,
            old_s@ * s@ <= 0,
            old_t@ * t@ <= 0,
            abs_int(old_s@) <= abs_int(s@) || abs_int(old_s@) <= 1,
            abs_int(old_t@) <= abs_int(t@) || abs_int(old_t@) <= 1,
            old_r@ < r@ ==> s@ == 0 && old_t@ == 0 && t@ == 1,
        decreases r@,
    {
        let q = div_nat(&old_r, &r);
        proof {
            lemma_fundamental_div_mod(old_r@ as int, r@ as int);
        }
        let ghost old_r_prev = old_r@;
        let ghost r_prev = r@;
        let qr = mul_nat(&q, &r);
        assert(qr@ as int == r@ as int * (old_r@ as int / r@ as int));
        let new_r = sub_nat(&old_r, &qr);
        assert(new_r@ == old_r@ % r@);
        old_r = r;
        r = new_r;

        let qi = BigSigned::from_nat(q);
        let new_s = sub_int(&old_s, &mul_int(&qi, &s));
        let new_t = sub_int(&old_t, &mul_int(&qi, &t));
        proof {
            let (orr, rr) = (old_r_prev as int, r_prev as int);
            assert(new_r@ as int == orr - qi@ * rr);
            lemma_coefficient_step(old_s@, s@, qi@, orr, rr, bi);
            lemma_coefficient_step(old_t@, t@, qi@, orr, rr, ai);
            if orr >= rr {
                assert(qi@ >= 1) by {
                    vstd::arithmetic::div_mod::lemma_div_is_ordered(rr, orr, rr);
                    vstd::arithmetic::div_mod::lemma_div_by_self(rr);
                }
                assert(qi@ * abs_int(s@) >= abs_int(s@)) by (nonlinear_arith)
                    requires
                        qi@ >= 1,
                        abs_int(s@) >= 0,
                ;
                assert(qi@ * abs_int(t@) >= abs_int(t@)) by (nonlinear_arith)
                    requires
                        qi@ >= 1,
                        abs_int(t@) >= 0,
                ;
            } else {
                assert(qi@ == 0) by {
                    vstd::arithmetic::div_mod::lemma_basic_div(orr, rr);
                }
            }
            vstd::arithmetic::div_mod::lemma_mod_pos_bound(orr, rr);
        }
        proof {
            let (os, ss, ot, tt, qq) = (old_s@, s@, old_t@, t@, qi@);
            assert(ai * (os - qq * ss) + bi * (ot - qq * tt) == (ai * os + bi * ot) - qq * (ai
                * ss + bi * tt)) by (nonlinear_arith);
        }
        old_s = s;
        s = new_s;
        old_t = t;
        t = new_t;
    }
    proof {
        if a@ > 0 && b@ > 0 {
            lemma_gcd_zero(a@, b@);
            let g = old_r@ as int;
            assert(abs_int(s@) * g == bi);
            assert(abs_int(t@) * g == ai);
            assert(abs_int(s@) >= 1) by (nonlinear_arith)
                requires
                    abs_int(s@) * g == bi,
                    bi > 0,
                    abs_int(s@) >= 0,
            ;
            assert(abs_int(t@) >= 1) by (nonlinear_arith)
                requires
                    abs_int(t@) * g == ai,
                    ai > 0,
                    abs_int(t@) >= 0,
            ;
            vstd::arithmetic::div_mod::lemma_div_multiples_vanish(abs_int(s@), g);
            vstd::arithmetic::div_mod::lemma_div_multiples_vanish(abs_int(t@), g);
            assert(g * abs_int(s@) == bi && g * abs_int(t@) == ai) by (nonlinear_arith)
                requires
                    abs_int(s@) * g == bi,
                    abs_int(t@) * g == ai,
            ;
        }
    }
    (old_r, old_s, old_t)
}

/// Computes the inverse of `a` modulo `m`: the value in `[0, m)` whose product
/// with `a` is 1 modulo `m`, or `None` where `gcd(a, m) != 1` (no inverse) or
/// `m` is zero (no residue).
pub fn mod_inverse(a: &BigNat, m: &BigNat) -> (r: Option<BigNat>)
    ensures
        r is Some <==> (gcd_of(a@, m@) == 1 && m@ > 0),
        r matches Some(v) ==> v@ < m@ && (a@ * v@) % m@ == 1nat % m@,
{
    let (g, x, _y) = extended_gcd(a, m);
    if !g.equals(&BigNat::from_u64(1)) || m.is_zero() {
        return None;
    }
    let mi = BigSigned::from_nat(m.clone());
    let xr = rem_int(&x, &mi);
    let v = if xr.is_negative() {
        add_int(&xr, &mi)
    } else {
        xr
    };
    proof {
        let (ai, mm, xi, yi) = (a@ as int, m@ as int, x@, _y@);
        // v differs from x by a multiple of m.
        let k: int = if xi >= 0 {
            xi / mm
        } else {
            -((-xi) / mm) - (if xr@ < 0 { 1int } else { 0int })
        };
        lemma_fundamental_div_mod(xi, mm);
        lemma_fundamental_div_mod(-xi, mm);
        if xi >= 0 {
            assert(v@ == xi - mm * k);
        } else {
            let qn = (-xi) / mm;
            let rn = (-xi) % mm;
            assert(-xi == mm * qn + rn);
            if rn == 0 {
                assert(k == -qn);
                assert(xi - mm * k == xi + mm * qn) by (nonlinear_arith)
                    requires
                        k == -qn,
                ;
                assert(v@ == xi - mm * k);
            } else {
                assert(xr@ < 0);
                assert(v@ == mm - rn);
                assert(k == -qn - 1);
                assert(xi - mm * k == xi + mm * qn + mm) by (nonlinear_arith)
                    requires
                        k == -qn - 1,
                ;
            }
        }
        assert(0 <= v@ < mm);
        assert(ai * v@ == (ai * xi + mm * yi) + mm * (-yi - ai * k)) by (nonlinear_arith)
            requires
                v@ == xi - mm * k,
        ;
        lemma_mod_multiples_vanish(-yi - ai * k, 1, mm);
    }
    Some(v.magnitude)
}

/// Computes the least common multiple `a*b / gcd(a, b)`; fails when both are
/// zero.
pub fn lcm(a: &BigNat, b: &BigNat) -> (r: Result<BigNat, ArithmeticError>)
    ensures
        (a@ == 0 && b@ == 0) ==> r == Err::<BigNat, ArithmeticError>(
            ArithmeticError::DivisionByZero,
        ),
        !(a@ == 0 && b@ == 0) ==> (r matches Ok(v) && v@ == a@ * b@ / gcd_of(a@, b@)),
{
    let g = gcd(a.clone(), b.clone());
    proof {
        lemma_gcd_zero(a@, b@);
    }
    if g.is_zero() {
        return Err(ArithmeticError::DivisionByZero);
    }
    Ok(div_nat(&mul_nat(a, b), &g))
}

/// Whether `gcd(a, b) == 1`.
pub fn is_coprime(a: &BigNat, b: &BigNat) -> (r: bool)
    ensures
        r == (gcd_of(a@, b@) == 1),
{
    gcd(a.clone(), b.clone()).equals(&BigNat::from_u64(1))
}

/// `gcd_of(a, b)` divides both arguments.
pub proof fn lemma_gcd_divides(a: nat, b: nat)
    requires
        gcd_of(a, b) > 0,
    ensures
        a % gcd_of(a, b) == 0,
        b % gcd_of(a, b) == 0,
    decreases b,
{
    let g = gcd_of(a, b);
    if b == 0 {
        lemma_mod_multiples_basic(1, g as int);
        lemma_mod_multiples_basic(0, g as int);
    } else {
        lemma_gcd_divides(b, a % b);
        lemma_fundamental_div_mod(a as int, b as int);
        lemma_fundamental_div_mod(b as int, g as int);
        lemma_fundamental_div_mod((a % b) as int, g as int);
        let s = b / g;
        let t = (a % b) / g;
        assert(a == g * (s * (a / b) + t)) by (nonlinear_arith)
            requires
                a == b * (a / b) + a % b,
                b == g * s,
                a % b == g * t,
        ;
        lemma_mod_multiples_basic((s * (a / b) + t) as int, g as int);
    }
}

/// Bezout: some integer combination of `a` and `b` is `gcd_of(a, b)`.
pub proof fn lemma_bezout(a: nat, b: nat)
    ensures
        exists|x: int, y: int| #[trigger] (a * x + b * y) == gcd_of(a, b) as int,
    decreases b,
{
    if b == 0 {
        assert(a * 1 + b * 0 == gcd_of(a, b) as int);
    } else {
        lemma_bezout(b, a % b);
        let (x1, y1) = choose|x: int, y: int| #[trigger] (b * x + (a % b) * y) == gcd_of(b, a % b) as int;
        lemma_fundamental_div_mod(a as int, b as int);
        let q = (a / b) as int;
        assert(a * y1 + b * (x1 - q * y1) == b * x1 + (a - b * q) * y1) by (nonlinear_arith);
        assert(a * y1 + b * (x1 - q * y1) == gcd_of(a, b) as int);
    }
}

/// Every common divisor of `a` and `b` divides `gcd_of(a, b)`, which divides
/// both: it is their greatest common divisor.
pub proof fn lemma_gcd_is_greatest(a: nat, b: nat, d: nat)
    requires
        d > 0,
        a % d == 0,
        b % d == 0,
    ensures
        gcd_of(a, b) % d == 0,
        gcd_of(a, b) > 0 ==> a % gcd_of(a, b) == 0 && b % gcd_of(a, b) == 0,
{
    if gcd_of(a, b) > 0 {
        lemma_gcd_divides(a, b);
    }
    lemma_bezout(a, b);
    let (x, y) = choose|x: int, y: int| #[trigger] (a * x + b * y) == gcd_of(a, b) as int;
    lemma_fundamental_div_mod(a as int, d as int);
    lemma_fundamental_div_mod(b as int, d as int);
    let (ka, kb) = ((a / d) as int, (b / d) as int);
    assert(a * x + b * y == d * (ka * x + kb * y)) by (nonlinear_arith)
        requires
            a == d * ka,
            b == d * kb,
    ;
    lemma_mod_multiples_basic(ka * x + kb * y, d as int);
    assert((d * (ka * x + kb * y)) % (d as int) == 0) by (nonlinear_arith)
        requires
            ((ka * x + kb * y) * d) % (d as int) == 0,
    ;
}

/// `p` is prime: at least 2, and no number in `[2, p)` divides it.
pub open spec fn is_prime(p: nat) -> bool {
    p >= 2 && forall|d: nat| 2 <= d < p ==> #[trigger] (p % d) != 0
}

/// Euler's product formula taken over the primes up to `k`: `n`, with each
/// prime `p <= k` that divides `n` turning the value `v` into `v / p * (p - 1)`,
/// in increasing order of `p`.
pub open spec fn euler_product(n: nat, k: nat) -> nat
    decreases k,
{
    if k < 2 {
        n
    } else {
        let prev = euler_product(n, (k - 1) as nat);
        if is_prime(k) && n % k == 0 {
            prev / k * (k - 1) as nat
        } else {
            prev
        }
    }
}

/// Euler's totient: `n` times `(1 - 1/p)` for each prime `p` dividing `n`.
pub open spec fn totient_of(n: nat) -> nat {
    euler_product(n, n)
}

/// A multiple of a multiple of `d` is a multiple of `d`.
pub proof fn lemma_divides_trans(d: nat, x: nat, y: nat)
    requires
        d > 0,
        x > 0,
        x % d == 0,
        y % x == 0,
    ensures
        y % d == 0,
{
    lemma_fundamental_div_mod(x as int, d as int);
    lemma_fundamental_div_mod(y as int, x as int);
    let (i, j) = ((x / d) as int, (y / x) as int);
    assert(y == (i * j) * d) by (nonlinear_arith)
        requires
            x == d * i,
            y == x * j,
    ;
    lemma_mod_multiples_basic(i * j, d as int);
}

/// Euclid's lemma: a prime dividing `a * b` but not `a` divides `b`.
pub proof fn lemma_euclid(q: nat, a: nat, b: nat)
    requires
        is_prime(q),
        (a * b) % q == 0,
        a % q != 0,
    ensures
        b % q == 0,
{
    let g = gcd_of(q, a);
    lemma_gcd_zero(q, a);
    lemma_gcd_divides(q, a);
    lemma_fundamental_div_mod(q as int, g as int);
    assert(g <= q) by (nonlinear_arith)
        requires
            q == g * (q / g),
            q > 0,
            g > 0,
    ;
    if g >= 2 && g < q {
        assert(q % g != 0);
    }
    assert(g == 1);
    lemma_bezout(q, a);
    let (x, y) = choose|x: int, y: int| #[trigger] (q * x + a * y) == gcd_of(q, a) as int;
    lemma_fundamental_div_mod((a * b) as int, q as int);
    let t = ((a * b) / q) as int;
    assert(b == (b * x + t * y) * q) by (nonlinear_arith)
        requires
            q * x + a * y == 1,
            a * b == q * t,
    ;
    lemma_mod_multiples_basic(b * x + t * y, q as int);
}

/// With no divisor in `[2, p)` and `p * p > m`, a number `m >= 2` is prime.
proof fn lemma_no_small_divisor(m: nat, p: nat)
    requires
        m >= 2,
        p * p > m,
        forall|d: nat| 2 <= d < p ==> #[trigger] (m % d) != 0,
    ensures
        is_prime(m),
{
    assert forall|d: nat| 2 <= d < m implies #[trigger] (m % d) != 0 by {
        if m % d == 0 {
            lemma_fundamental_div_mod(m as int, d as int);
            let e = m / d;
            assert(m == d * e);
            assert(e >= 2) by (nonlinear_arith)
                requires
                    m == d * e,
                    d < m,
            ;
            if d >= p && e >= p {
                assert(d * e >= p * p) by (nonlinear_arith)
                    requires
                        d >= p,
                        e >= p,
                ;
            }
            if e < p {
                lemma_mod_multiples_basic(d as int, e as int);
                assert(m == d * e);
                assert((d * e) % e == 0);
                assert(m % e != 0);
            }
        }
    }
}

/// Past the primes below `p`, the product only changes at `nn` when `nn` is
/// the one prime at least `p` that divides `n`.
proof fn lemma_euler_tail(n: nat, nn: nat, p: nat, k: nat)
    requires
        p >= 2,
        p - 1 <= k <= n,
        nn <= n,
        nn == 1 || (is_prime(nn) && nn >= p),
        forall|q: nat| p <= q && #[trigger] is_prime(q) ==> (n % q == 0 <==> nn % q == 0),
        n % nn == 0,
    ensures
        euler_product(n, k) == if nn > 1 && k >= nn {
            euler_product(n, (p - 1) as nat) / nn * (nn - 1) as nat
        } else {
            euler_product(n, (p - 1) as nat)
        },
    decreases k,
{
    if k > p - 1 {
        lemma_euler_tail(n, nn, p, (k - 1) as nat);
        if is_prime(k) && n % k == 0 {
            assert(nn % k == 0);
            if nn == 1 {
                assert(1nat % k == 1) by {
                    vstd::arithmetic::div_mod::lemma_small_mod(1, k);
                }
            } else if k < nn {
                assert(nn % k != 0);
            } else if k > nn {
                vstd::arithmetic::div_mod::lemma_small_mod(nn, k);
            }
        }
    }
}

/// Dividing a prime `p` out of `nn` keeps what the trial division relies on:
/// the rest still divides `n`, has no factor below `p`, and keeps every prime
/// factor of `n` above `p`.
proof fn lemma_strip_factor(n: nat, nn: nat, p: nat, k: nat)
    requires
        is_prime(p),
        nn == p * k,
        nn >= 1,
        n % nn == 0,
        forall|d: nat| 2 <= d < p ==> #[trigger] (nn % d) != 0,
        forall|q: nat| p < q && #[trigger] is_prime(q) ==> (n % q == 0 <==> nn % q == 0),
    ensures
        k >= 1,
        n % k == 0,
        forall|d: nat| 2 <= d < p ==> #[trigger] (k % d) != 0,
        forall|q: nat| p < q && #[trigger] is_prime(q) ==> (n % q == 0 <==> k % q == 0),
{
    assert(k >= 1) by (nonlinear_arith)
        requires
            nn == p * k,
            nn >= 1,
    ;
    lemma_mod_multiples_basic(p as int, k as int);
    assert(nn % k == 0);
    lemma_divides_trans(k, nn, n);
    assert forall|d: nat| 2 <= d < p implies #[trigger] (k % d) != 0 by {
        if k % d == 0 {
            lemma_divides_trans(d, k, nn);
        }
    }
    assert forall|q: nat| p < q && #[trigger] is_prime(q) implies (n % q == 0 <==> k % q == 0) by {
        if k % q == 0 {
            lemma_divides_trans(q, k, nn);
        }
        if n % q == 0 {
            vstd::arithmetic::div_mod::lemma_small_mod(p, q);
            lemma_euclid(q, p, k);
        }
    }
}

/// Euler's totient by trial division: each prime factor `p` found turns the
/// running value `v` into `v / p * (p - 1)` and is divided out; what remains
/// above 1 at the end is the last prime factor.
pub fn totient(n: &BigNat) -> (r: BigNat)
    ensures
        r@ == totient_of(n@),
{
    if n.is_zero() {
        return BigNat::zero();
    }
    let one = BigNat::from_u64(1);
    let mut result = n.clone();
    let mut nn = n.clone();
    let mut p = BigNat::from_u64(2);
    let ghost mut c: nat = 1;
    let ghost nv = n@;
    while !nn.less_than(&mul_nat(&p, &p))
        invariant
            nv == n@,
            nv >= 1,
            one@ == 1,
            p@ >= 2,
            p@ - 1 <= nv,
            1 <= nn@ <= nv,
            nv % nn@ == 0,
            forall|d: nat| 2 <= d < p@ ==> #[trigger] (nn@ % d) != 0,
            forall|q: nat| p@ <= q && #[trigger] is_prime(q) ==> (nv % q == 0 <==> nn@ % q == 0),
            result@ == euler_product(nv, (p@ - 1) as nat),
            result@ == nn@ * c,
        decreases (if p@ <= nn@ { nn@ + 1 - p@ } else { 0 }),
    {
        assert(p@ <= nn@) by (nonlinear_arith)
            requires
                p@ * p@ <= nn@,
                p@ >= 2,
        ;
        let ghost pv = p@;
        let ghost nn_start = nn@;
        if rem_nat(&nn, &p).is_zero() {
            proof {
                assert(is_prime(pv)) by {
                    assert forall|d: nat| 2 <= d < pv implies #[trigger] (pv % d) != 0 by {
                        if pv % d == 0 {
                            lemma_divides_trans(d, pv, nn@);
                        }
                    }
                }
                lemma_divides_trans(pv, nn@, nv);
                lemma_fundamental_div_mod(nn@ as int, pv as int);
                let k = nn@ / pv;
                assert(result@ == pv * (k * c)) by (nonlinear_arith)
                    requires
                        result@ == nn@ * c,
                        nn@ == pv * k,
                ;
                vstd::arithmetic::div_mod::lemma_div_multiples_vanish((k * c) as int, pv as int);
                lemma_strip_factor(nv, nn@, pv, k);
                assert(k <= nn@) by (nonlinear_arith)
                    requires
                        nn@ == pv * k,
                        pv >= 2,
                ;
            }
            result = mul_nat(&div_nat(&result, &p), &sub_nat(&p, &one));
            nn = div_nat(&nn, &p);
            proof {
                let old_c = c;
                c = c * (pv - 1) as nat;
                assert(result@ == nn@ * c) by (nonlinear_arith)
                    requires
                        result@ == (nn@ * old_c) * (pv - 1) as nat,
                        c == old_c * (pv - 1) as nat,
                ;
            }
            while rem_nat(&nn, &p).is_zero()
                invariant
                    p@ == pv,
                    is_prime(pv),
                    nn@ <= nn_start,
                    nv >= 1,
                    1 <= nn@ <= nv,
                    nv % nn@ == 0,
                    forall|d: nat| 2 <= d < pv ==> #[trigger] (nn@ % d) != 0,
                    forall|q: nat| pv < q && #[trigger] is_prime(q) ==> (nv % q == 0 <==> nn@ % q == 0),
                    result@ == nn@ * c,
                    result@ == euler_product(nv, pv),
                decreases nn@,
            {
                proof {
                    lemma_fundamental_div_mod(nn@ as int, pv as int);
                    let k = nn@ / pv;
                    lemma_strip_factor(nv, nn@, pv, k);
                    let old_c = c;
                    c = c * pv;
                    assert(result@ == k * c) by (nonlinear_arith)
                        requires
                            result@ == nn@ * old_c,
                            nn@ == pv * k,
                            c == old_c * pv,
                    ;
                    assert(k < nn@) by (nonlinear_arith)
                        requires
                            nn@ == pv * k,
                            pv >= 2,
                            nn@ >= 1,
                    ;
                }
                nn = div_nat(&nn, &p);
            }
        } else {
            proof {
                if is_prime(pv) {
                    assert(nv % pv != 0);
                }
            }
        }
        p = add_nat(&p, &one);
    }
    proof {
        if nn@ > 1 {
            lemma_no_small_divisor(nn@, p@);
            if nn@ < p@ {
                vstd::arithmetic::div_mod::lemma_mod_self_0(nn@ as int);
                assert(nn@ % nn@ != 0);
            }
        }
    }
    if one.less_than(&nn) {
        proof {
            vstd::arithmetic::div_mod::lemma_div_multiples_vanish(c as int, nn@ as int);
            assert(result@ == nn@ * c);
        }
        result = mul_nat(&div_nat(&result, &nn), &sub_nat(&nn, &one));
    }
    proof {
        lemma_euler_tail(nv, nn@, p@, nv);
    }
    result
}

} // verus!
