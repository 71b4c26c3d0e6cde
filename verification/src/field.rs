//! Arithmetic over a prime field: modular exponentiation, the extended
//! Euclidean algorithm for modular inverses, and the number-theoretic
//! facts (gcd, primality, Bezout coefficients) that their contracts and
//! the interpolation proofs rest on.

use vstd::arithmetic::div_mod::*;
use vstd::arithmetic::mul::*;
use vstd::arithmetic::power::*;
use vstd::prelude::*;

use crate::sss::ShamirError;

verus! {

/// Greatest common divisor, by Euclid's recurrence.
pub open spec fn gcd(a: nat, b: nat) -> nat
    decreases b,
{
    if b == 0 {
        a
    } else {
        gcd(b, a % b)
    }
}

/// A prime has no divisor strictly between 1 and itself.
pub open spec fn is_prime(n: nat) -> bool {
    n >= 2 && forall|d: nat| 1 < d < n ==> #[trigger] (n % d) != 0
}

/// The multiplicative inverse of `a` modulo `m`, when one exists; some
/// arbitrary integer otherwise.
pub open spec fn inv_mod(a: int, m: int) -> int {
    choose|t: int| 0 <= t < m && #[trigger] ((a * t) % m) == 1
}

/// `gcd(a, b)` divides both of its arguments.
pub proof fn lemma_gcd_divides(a: nat, b: nat)
    ensures
        gcd(a, b) != 0 ==> a % gcd(a, b) == 0,
        gcd(a, b) != 0 ==> b % gcd(a, b) == 0,
    decreases b,
{
    let g = gcd(a, b);
    if b == 0 {
        if g != 0 {
            lemma_mod_self_0(a as int);
            assert(0nat % g == 0) by {
                lemma_small_mod(0nat, g);
            }
        }
    } else {
        lemma_gcd_divides(b, a % b);
        if g != 0 {
            // a == b * (a / b) + a % b, and g divides both summands.
            let bi = b as int;
            let qi = (a / b) as int;
            let ri = (a % b) as int;
            let gi = g as int;
            lemma_fundamental_div_mod(a as int, bi);
            assert((bi * qi) % gi == 0) by {
                lemma_mul_mod_noop_left(bi, qi, gi);
                assert(((bi % gi) * qi) % gi == 0) by (nonlinear_arith)
                    requires
                        bi % gi == 0,
                        gi > 0,
                ;
            }
            assert(a as int == bi * qi + ri);
            lemma_add_mod_noop(bi * qi, ri, gi);
        }
    }
}

/// The gcd of two numbers that are not both zero is positive.
pub proof fn lemma_gcd_pos(a: nat, b: nat)
    requires
        a > 0 || b > 0,
    ensures
        gcd(a, b) > 0,
    decreases b,
{
    if b != 0 {
        lemma_gcd_pos(b, a % b);
    }
}

/// A positive divisor of a positive number is no larger than it.
proof fn lemma_divisor_bound(n: nat, d: nat)
    requires
        d > 0,
        n > 0,
        n % d == 0,
    ensures
        d <= n,
{
    lemma_fundamental_div_mod(n as int, d as int);
    assert(d <= n) by (nonlinear_arith)
        requires
            n as int == d as int * (n as int / d as int),
            n > 0,
            d > 0;
}

/// A prime is coprime to every smaller positive number.
pub proof fn lemma_prime_coprime(p: nat, d: nat)
    requires
        is_prime(p),
        0 < d < p,
    ensures
        gcd(p, d) == 1,
{
    let g = gcd(p, d);
    lemma_gcd_pos(p, d);
    lemma_gcd_divides(p, d);
    if g != 1 {
        lemma_divisor_bound(d, g);
        // g divides p with 1 < g <= d < p: contradicts primality.
        assert(p % g != 0);
        assert(false);
    }
}

/// The first Bezout coefficient: `a * bezout_x(a, b) + b * bezout_y(a, b)`
/// equals `gcd(a, b)`.
pub open spec fn bezout_x(a: nat, b: nat) -> int
    decreases b,
{
    if b == 0 {
        1
    } else {
        bezout_y(b, a % b)
    }
}

/// The second Bezout coefficient; see `bezout_x`.
pub open spec fn bezout_y(a: nat, b: nat) -> int
    decreases b,
{
    if b == 0 {
        0
    } else {
        bezout_x(b, a % b) - (a / b) * bezout_y(b, a % b)
    }
}

/// Bezout's identity: the gcd is an integer combination of its arguments.
pub proof fn lemma_bezout(a: nat, b: nat)
    ensures
        a * bezout_x(a, b) + b * bezout_y(a, b) == gcd(a, b),
    decreases b,
{
    if b == 0 {
    } else {
        lemma_bezout(b, a % b);
        let q = (a / b) as int;
        let xp = bezout_x(b, a % b);
        let yp = bezout_y(b, a % b);
        lemma_fundamental_div_mod(a as int, b as int);
        assert(a * yp + b * (xp - q * yp) == b * xp + (a - b * q) * yp) by (nonlinear_arith);
        assert((a % b) as int == a - b * q);
    }
}

/// Every number coprime to the modulus has an inverse in `[0, m)`.
pub proof fn lemma_inverse_exists(m: nat, d: nat)
    requires
        m >= 2,
        gcd(m, d) == 1,
    ensures
        exists|t: int| 0 <= t < m && #[trigger] ((d * t) % (m as int)) == 1,
{
    lemma_bezout(m, d);
    let x = bezout_x(m, d);
    let y = bezout_y(m, d);
    let t = y % (m as int);
    assert(0 <= t < m) by {
        lemma_mod_bound(y, m as int);
    }
    assert((d * t) % (m as int) == (d * y) % (m as int)) by {
        lemma_mul_mod_noop_right(d as int, y, m as int);
        lemma_mod_twice(y, m as int);
    }
    assert(d * y == 1 - m * x);
    assert((1 - m * x) % (m as int) == 1int % (m as int)) by {
        lemma_mod_multiples_vanish(-x, 1, m as int);
        assert((-x) * m == 1 - m * x - 1) by (nonlinear_arith);
    }
    assert(1int % (m as int) == 1) by {
        lemma_small_mod(1nat, m);
    }
    assert((d * t) % (m as int) == 1);
}

/// `inv_mod(a, m)` really is an inverse of `a` whenever `a mod m` is
/// coprime to the modulus.
pub proof fn lemma_inv_mod_works(a: int, m: int)
    requires
        m >= 2,
        a >= 0,
        gcd(m as nat, (a % m) as nat) == 1,
    ensures
        0 <= inv_mod(a, m) < m,
        (a * inv_mod(a, m)) % m == 1,
{
    lemma_mod_bound(a, m);
    lemma_inverse_exists(m as nat, (a % m) as nat);
    let t0 = choose|t: int| 0 <= t < m && #[trigger] (((a % m) * t) % m) == 1;
    assert((a * t0) % m == ((a % m) * t0) % m) by {
        lemma_mul_mod_noop_left(a, t0, m);
        lemma_mul_mod_noop_left(a % m, t0, m);
        lemma_mod_twice(a, m);
    }
    assert(0 <= t0 < m && #[trigger] ((a * t0) % m) == 1);
}

/// Multiplication respects congruence modulo `m`.
pub proof fn lemma_mul_cong(a1: int, a2: int, b1: int, b2: int, m: int)
    requires
        m > 0,
        a1 % m == a2 % m,
        b1 % m == b2 % m,
    ensures
        (a1 * b1) % m == (a2 * b2) % m,
{
    lemma_mul_mod_noop(a1, b1, m);
    lemma_mul_mod_noop(a2, b2, m);
}

/// Addition respects congruence modulo `m`.
pub proof fn lemma_add_cong(a1: int, a2: int, b1: int, b2: int, m: int)
    requires
        m > 0,
        a1 % m == a2 % m,
        b1 % m == b2 % m,
    ensures
        (a1 + b1) % m == (a2 + b2) % m,
{
    lemma_add_mod_noop(a1, b1, m);
    lemma_add_mod_noop(a2, b2, m);
}

/// A power of a nonnegative base is nonnegative.
pub proof fn lemma_pow_nonneg(b: int, e: nat)
    requires
        b >= 0,
    ensures
        pow(b, e) >= 0,
    decreases e,
{
    reveal(pow);
    if e > 0 {
        lemma_pow_nonneg(b, (e - 1) as nat);
        lemma_mul_nonnegative(b, pow(b, (e - 1) as nat));
    }
}

/// The inverse modulo `m` is unique in `[0, m)`, so any witness equals
/// `inv_mod`.
pub proof fn lemma_inv_mod_unique(a: int, m: int, t: int)
    requires
        m >= 2,
        0 <= t < m,
        (a * t) % m == 1,
    ensures
        inv_mod(a, m) == t,
        0 <= inv_mod(a, m) < m,
        (a * inv_mod(a, m)) % m == 1,
{
    assert(0 <= inv_mod(a, m) < m && (a * inv_mod(a, m)) % m == 1) by {
        assert(exists|w: int| 0 <= w < m && #[trigger] ((a * w) % m) == 1) by {
            assert(0 <= t < m && (a * t) % m == 1);
        }
    }
    let u = inv_mod(a, m);
    // t == t * ((a*u) % m) == (t*a*u) % m == ((t*a) % m * u) % m == u (mod m)
    assert((t * (a * u)) % m == ((t * a) % m * u) % m) by {
        lemma_mul_mod_noop_general(t * a, u, m);
        lemma_mul_is_associative(t, a, u);
    }
    assert((t * (a * u)) % m == (t * ((a * u) % m)) % m) by {
        lemma_mul_mod_noop_right(t, a * u, m);
    }
    assert(((t * a) % m * u) % m == ((a * t) % m * u) % m) by {
        lemma_mul_is_commutative(t, a);
    }
    assert((1 * u) % m == u % m);
    assert(u % m == u) by {
        lemma_small_mod(u as nat, m as nat);
    }
    assert((t * 1) % m == t % m);
    assert(t % m == t) by {
        lemma_small_mod(t as nat, m as nat);
    }
}

/// When `g^q == 1 (mod p)`, exponents of `g` can be reduced modulo `q`
/// without changing the power modulo `p`.
pub proof fn lemma_pow_mod_cycle(g: int, q: nat, p: int, e: nat)
    requires
        p >= 2,
        q >= 1,
        g >= 0,
        pow(g, q) % p == 1,
    ensures
        pow(g, e) % p == pow(g, e % q) % p,
{
    let k = e / q;
    let r = e % q;
    assert(e == q * k + r) by {
        lemma_fundamental_div_mod(e as int, q as int);
    }
    assert(pow(g, e) == pow(g, (q * k) as nat) * pow(g, r)) by {
        lemma_pow_adds(g, (q * k) as nat, r);
    }
    assert(pow(g, (q * k) as nat) == pow(pow(g, q), k)) by {
        lemma_pow_multiplies(g, q, k);
    }
    assert(pow(pow(g, q), k) % p == 1) by {
        lemma_pow_mod_noop(pow(g, q), k, p);
        lemma1_pow(k);
        lemma_small_mod(1nat, p as nat);
        assert(pow(pow(g, q) % p, k) == 1);
    }
    assert(pow(g, e) % p == ((pow(pow(g, q), k) % p) * (pow(g, r) % p)) % p) by {
        lemma_mul_mod_noop(pow(pow(g, q), k), pow(g, r), p);
    }
    assert((1 * (pow(g, r) % p)) % p == pow(g, r) % p) by {
        lemma_mod_twice(pow(g, r), p);
    }
}

/// A common factor with an inverse can be cancelled from a congruence.
pub proof fn lemma_mod_cancel(a: int, b: int, c: int, w: int, m: int)
    requires
        m >= 2,
        (c * w) % m == 1,
        (a * c) % m == (b * c) % m,
    ensures
        a % m == b % m,
{
    lemma_small_mod(1nat, m as nat);
    // a == a * (c * w) == (a * c) * w == (b * c) * w == b * (c * w) == b (mod m)
    assert(a * (c * w) == (a * c) * w) by (nonlinear_arith);
    assert(b * (c * w) == (b * c) * w) by (nonlinear_arith);
    lemma_mul_cong(a, a, c * w, 1, m);
    lemma_mul_cong(b, b, c * w, 1, m);
    lemma_mul_cong(a * c, b * c, w, w, m);
}

/// The product of two invertible elements is inverted by the product of
/// their inverses.
pub proof fn lemma_unit_mul(a: int, ua: int, b: int, ub: int, m: int)
    requires
        m >= 2,
        (a * ua) % m == 1,
        (b * ub) % m == 1,
    ensures
        ((a * b) * (ua * ub)) % m == 1,
{
    lemma_small_mod(1nat, m as nat);
    assert((a * b) * (ua * ub) == (a * ua) * (b * ub)) by (nonlinear_arith);
    lemma_mul_cong(a * ua, 1, b * ub, 1, m);
}

/// An element with an inverse is coprime to the modulus.
pub proof fn lemma_unit_coprime(v: int, w: int, m: int)
    requires
        m >= 2,
        0 <= v < m,
        (v * w) % m == 1,
    ensures
        gcd(m as nat, v as nat) == 1,
{
    let g = gcd(m as nat, v as nat);
    lemma_gcd_pos(m as nat, v as nat);
    lemma_gcd_divides(m as nat, v as nat);
    if g != 1 {
        let gi = g as int;
        let k = (v * w) / m;
        lemma_fundamental_div_mod(v * w, m);
        assert(v * w == m * k + 1);
        assert((v * w) % gi == 0) by {
            lemma_mul_mod_noop_left(v, w, gi);
            assert(((v % gi) * w) % gi == 0) by (nonlinear_arith)
                requires
                    v % gi == 0,
                    gi > 0,
            ;
        }
        assert((m * k) % gi == 0) by {
            lemma_mul_mod_noop_left(m, k, gi);
            assert(((m % gi) * k) % gi == 0) by (nonlinear_arith)
                requires
                    m % gi == 0,
                    gi > 0,
            ;
        }
        assert(1int % gi == 0) by {
            lemma_sub_mod_noop(v * w, m * k, gi);
            lemma_small_mod(0nat, g);
            assert((v * w - m * k) % gi == 0);
        }
        assert(1int % gi == 1) by {
            lemma_small_mod(1nat, g);
        }
        assert(false);
    }
}

/// Reducing a value that overshoots the modulus by less than one
/// period either keeps it or subtracts the modulus once.
pub proof fn lemma_wrap_mod(v: int, q: int)
    requires
        q >= 1,
        0 <= v < 2 * q,
    ensures
        v % q == if v < q {
            v
        } else {
            v - q
        },
{
    if v < q {
        lemma_small_mod(v as nat, q as nat);
    } else {
        lemma_mod_sub_multiples_vanish(v, q);
        assert((-q + v) % q == v % q);
        lemma_small_mod((v - q) as nat, q as nat);
    }
}

/// A nontrivial generator of order dividing a prime `q` sends distinct
/// exponents below `q` to distinct powers modulo `p`.
pub proof fn lemma_pow_distinct_below_order(g: int, q: nat, p: int, a: nat, b: nat)
    requires
        p >= 2,
        is_prime(q),
        1 < g < p,
        pow(g, q) % p == 1,
        a < b,
        b < q,
    ensures
        pow(g, a) % p != pow(g, b) % p,
{
    if pow(g, a) % p == pow(g, b) % p {
        let d = (b - a) as nat;
        let w = (q - a) as nat;
        // Multiplying both sides by g^(q-a) gives g^q == g^(q+d) (mod p),
        // so 1 == g^d (mod p) with 0 < d < q.
        assert(pow(g, a) * pow(g, w) == pow(g, q)) by {
            lemma_pow_adds(g, a, w);
        }
        assert(pow(g, b) * pow(g, w) == pow(g, (q + d) as nat)) by {
            lemma_pow_adds(g, b, w);
            assert(b + w == q + d);
        }
        assert((pow(g, a) * pow(g, w)) % p == (pow(g, b) * pow(g, w)) % p) by {
            lemma_mul_mod_noop(pow(g, a), pow(g, w), p);
            lemma_mul_mod_noop(pow(g, b), pow(g, w), p);
        }
        assert(pow(g, (q + d) as nat) % p == pow(g, d) % p) by {
            lemma_pow_mod_cycle(g, q, p, (q + d) as nat);
            assert((q + d) % q == d) by {
                lemma_mod_add_multiples_vanish(d as int, q as int);
                lemma_small_mod(d, q);
            }
        }
        assert(pow(g, d) % p == 1);
        // d is invertible modulo the prime q: d * u == q * kk + 1.
        lemma_prime_coprime(q, d);
        lemma_inverse_exists(q, d);
        let u = choose|t: int| 0 <= t < q && #[trigger] ((d * t) % (q as int)) == 1;
        assert(u >= 1) by {
            if u == 0 {
                assert((d as int * 0) % (q as int) == 0) by {
                    lemma_small_mod(0nat, q);
                }
            }
        }
        let du = (d * u) as nat;
        let kk = du / q;
        assert(du == q * kk + 1) by {
            lemma_fundamental_div_mod(du as int, q as int);
            assert(du as int % (q as int) == 1);
        }
        // g^(d*u) == (g^d)^u == 1 (mod p) ...
        assert(pow(g, du) % p == 1) by {
            lemma_pow_multiplies(g, d, u as nat);
            assert(d * (u as nat) == du);
            lemma_pow_mod_noop(pow(g, d), u as nat, p);
            lemma1_pow(u as nat);
            lemma_small_mod(1nat, p as nat);
            assert(pow(pow(g, d) % p, u as nat) == 1);
        }
        // ... yet also g^(d*u) == (g^q)^kk * g == g (mod p).
        assert(pow(g, du) == pow(pow(g, q), kk) * g) by {
            lemma_pow_multiplies(g, q, kk);
            lemma_pow_adds(g, (q * kk) as nat, 1);
            lemma_pow1(g);
        }
        assert((pow(pow(g, q), kk) * g) % p == g % p) by {
            lemma_pow_mod_noop(pow(g, q), kk, p);
            lemma1_pow(kk);
            lemma_small_mod(1nat, p as nat);
            assert(pow(pow(g, q) % p, kk) == 1);
            lemma_mul_mod_noop(pow(pow(g, q), kk), g, p);
            lemma_mod_twice(g, p);
        }
        assert(g % p == g) by {
            lemma_small_mod(g as nat, p as nat);
        }
        assert(false);
    }
}

/// Binary (square-and-multiply) modular exponentiation.
///
/// Computes `base ^ exponent mod modulus` in `O(log exponent)` steps.
/// A modulus of 1 is the degenerate case where every value is 0.
pub fn mod_pow(base: u64, exponent: u64, modulus: u64) -> (r: u64)
    requires
        modulus >= 1,
    ensures
        r as int == pow(base as int, exponent as nat) % (modulus as int),
        r < modulus,
{
    if modulus == 1 {
        proof {
            lemma_mod_1(pow(base as int, exponent as nat));
        }
        return 0;
    }
    let mut result: u64 = 1;
    let mut b: u64 = base % modulus;
    let mut e: u64 = exponent;
    proof {
        lemma_pow_mod_noop(base as int, exponent as nat, modulus as int);
        lemma_mul_basics(pow(b as int, e as nat));
    }
    while e > 0
        invariant
            modulus >= 2,
            result < modulus,
            b < modulus,
            (result as int * pow(b as int, e as nat)) % (modulus as int)
                == pow(base as int, exponent as nat) % (modulus as int),
        decreases e,
    {
        let ghost r0 = result as int;
        let ghost b0 = b as int;
        let ghost e0 = e as nat;
        let m = modulus;
        proof {
            lemma_mul_upper_bound(result as int, u64::MAX as int, b as int, u64::MAX as int);
            lemma_mul_upper_bound(b as int, u64::MAX as int, b as int, u64::MAX as int);
        }
        if e % 2 == 1 {
            result = ((result as u128 * b as u128) % (m as u128)) as u64;
        }
        e = e / 2;
        b = ((b as u128 * b as u128) % (m as u128)) as u64;
        proof {
            lemma_square_then_halve(r0, b0, e0, m as int, result as int, b as int, e as nat);
        }
    }
    proof {
        lemma_pow0(b as int);
        lemma_small_mod(result as nat, modulus as nat);
    }
    result
}

/// Everything is congruent to 0 modulo 1.
proof fn lemma_mod_1(x: int)
    ensures
        x % 1int == 0,
{
    lemma_fundamental_div_mod(x, 1int);
    lemma_mod_bound(x, 1int);
}

/// One step of square-and-multiply preserves the running-product
/// invariant `result * b^e == base^exponent (mod m)`.
proof fn lemma_square_then_halve(
    r0: int,
    b0: int,
    e0: nat,
    m: int,
    r1: int,
    b1: int,
    e1: nat,
)
    requires
        m >= 2,
        0 <= r0 < m,
        0 <= b0 < m,
        e0 > 0,
        e1 == e0 / 2,
        b1 == (b0 * b0) % m,
        r1 == if e0 % 2 == 1 {
            (r0 * b0) % m
        } else {
            r0
        },
    ensures
        (r1 * pow(b1, e1)) % m == (r0 * pow(b0, e0)) % m,
{
    // b1^e1 == (b0^2 % m)^e1 == (b0^2)^e1 == b0^(2*e1) (mod m)
    assert((r1 * pow(b1, e1)) % m == (r1 * pow(b0 * b0, e1)) % m) by {
        lemma_square_is_pow2(b0);
        lemma_pow_mod_noop(pow(b0, 2), e1, m);
        lemma_mul_mod_noop_right(r1, pow(pow(b0, 2), e1), m);
        lemma_mul_mod_noop_right(r1, pow(b1, e1), m);
        assert(pow(b1, e1) == pow(pow(b0, 2) % m, e1));
    }
    assert(pow(b0 * b0, e1) == pow(b0, 2 * e1)) by {
        lemma_square_is_pow2(b0);
        lemma_pow_multiplies(b0, 2, e1);
    }
    if e0 % 2 == 1 {
        assert(e0 == 2 * e1 + 1);
        assert(pow(b0, e0) == pow(b0, 2 * e1) * b0) by {
            lemma_pow1(b0);
            lemma_pow_adds(b0, 2 * e1, 1);
        }
        // r1 * b0^(2 e1) == (r0 * b0 % m) * b0^(2 e1) == r0 * b0^(e0) (mod m)
        assert((r1 * pow(b0, 2 * e1)) % m == (r0 * b0 * pow(b0, 2 * e1)) % m) by {
            lemma_mul_mod_noop_left(r0 * b0, pow(b0, 2 * e1), m);
        }
        assert(r0 * b0 * pow(b0, 2 * e1) == r0 * pow(b0, e0)) by {
            lemma_mul_is_associative(r0, b0, pow(b0, 2 * e1));
            lemma_mul_is_commutative(b0, pow(b0, 2 * e1));
            lemma_mul_is_associative(r0, pow(b0, 2 * e1), b0);
        }
    } else {
        assert(e0 == 2 * e1);
    }
}

/// Modular inverse by the extended Euclidean algorithm.
///
/// Returns the unique `t` in `[0, m)` with `a * t == 1 (mod m)` exactly
/// when `a mod m` is coprime to `m`, and reports `NoInverseExists`
/// otherwise.
pub fn mod_inverse(a: u64, m: u64) -> (res: Result<u64, ShamirError>)
    requires
        m >= 2,
    ensures
        match res {
            Ok(t) => gcd(m as nat, (a % m) as nat) == 1 && t < m && (a as int * t as int) % (
            m as int) == 1 && t as int == inv_mod(a as int, m as int),
            Err(e) => e == ShamirError::NoInverseExists && gcd(m as nat, (a % m) as nat) != 1,
        },
{
    let a0 = a % m;
    let mut r: u64 = m;
    let mut newr: u64 = a0;
    let mut t: u64 = 0;
    let mut newt: u64 = 1;
    proof {
        lemma_mod_self_0(m as int);
        lemma_small_mod(a0 as nat, m as nat);
        lemma_small_mod(0nat, m as nat);
    }
    while newr != 0
        invariant
            m >= 2,
            a0 < m,
            0 < r <= m,
            newr < r,
            t < m,
            newt < m,
            gcd(r as nat, newr as nat) == gcd(m as nat, a0 as nat),
            (t as int * a0 as int) % (m as int) == r as int % (m as int),
            (newt as int * a0 as int) % (m as int) == newr as int % (m as int),
        decreases newr,
    {
        let ghost gr = r as int;
        let ghost gnewr = newr as int;
        let ghost gt = t as int;
        let ghost gnewt = newt as int;
        let q = r / newr;
        proof {
            lemma_mul_upper_bound(q as int, u64::MAX as int, newt as int, u64::MAX as int);
        }
        let qn = ((q as u128 * newt as u128) % (m as u128)) as u64;
        let t2 = ((t as u128 + m as u128 - qn as u128) % (m as u128)) as u64;
        let r2 = r % newr;
        proof {
            lemma_euclid_step(gr, gnewr, gt, gnewt, a0 as int, m as int, t2 as int);
        }
        t = newt;
        newt = t2;
        r = newr;
        newr = r2;
    }
    if r == 1 {
        proof {
            lemma_small_mod(r as nat, m as nat);
            // t * a0 == 1 (mod m), and a == a0 (mod m).
            lemma_mul_mod_noop_right(t as int, a as int, m as int);
            lemma_mul_mod_noop_right(t as int, a0 as int, m as int);
            lemma_mul_is_commutative(t as int, a as int);
            lemma_inv_mod_unique(a as int, m as int, t as int);
        }
        Ok(t)
    } else {
        Err(ShamirError::NoInverseExists)
    }
}

/// One step of the extended Euclidean loop keeps the Bezout congruence
/// `t * a == r (mod m)` for the new remainder/coefficient pair.
proof fn lemma_euclid_step(r: int, newr: int, t: int, newt: int, a0: int, m: int, t2: int)
    requires
        m >= 2,
        0 < newr < r,
        0 <= t < m,
        0 <= newt < m,
        0 <= a0 < m,
        (t * a0) % m == r % m,
        (newt * a0) % m == newr % m,
        t2 == (t + m - (r / newr * newt) % m) % m,
    ensures
        (t2 * a0) % m == (r % newr) % m,
        0 <= t2 < m,
{
    let q = r / newr;
    let qn = (q * newt) % m;
    lemma_mod_bound(q * newt, m);
    lemma_mod_bound(t + m - qn, m);
    // t2 == t - q * newt (mod m)
    assert(t2 % m == t2) by {
        lemma_small_mod(t2 as nat, m as nat);
    }
    assert(t2 == (t - qn + m) % m);
    assert((t - qn + m) % m == (t - qn) % m) by {
        lemma_mod_add_multiples_vanish(t - qn, m);
    }
    assert((t - qn) % m == (t - q * newt) % m) by {
        lemma_sub_mod_noop_right(t, q * newt, m);
        lemma_mod_twice(q * newt, m);
    }
    // (t2 * a0) == (t - q*newt) * a0 == t*a0 - q*(newt*a0) (mod m)
    assert((t2 * a0) % m == ((t - q * newt) * a0) % m) by {
        lemma_mul_mod_noop_left(t2, a0, m);
        lemma_mul_mod_noop_left(t - q * newt, a0, m);
    }
    assert((t - q * newt) * a0 == t * a0 - q * (newt * a0)) by (nonlinear_arith);
    assert((t * a0 - q * (newt * a0)) % m == (t * a0 - q * newr) % m) by {
        lemma_sub_mod_noop_right(t * a0, q * (newt * a0), m);
        lemma_mul_mod_noop_right(q, newt * a0, m);
        lemma_mul_mod_noop_right(q, newr, m);
        lemma_sub_mod_noop_right(t * a0, q * newr, m);
    }
    assert((t * a0 - q * newr) % m == (r - q * newr) % m) by {
        lemma_sub_mod_noop(t * a0, q * newr, m);
        lemma_sub_mod_noop(r, q * newr, m);
    }
    assert(r % newr == r - q * newr) by {
        lemma_fundamental_div_mod(r, newr);
    }
}

} // verus!
