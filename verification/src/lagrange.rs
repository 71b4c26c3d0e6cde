//! Lagrange interpolation at an arbitrary point: the reconstruction
//! engine shared by both sharing schemes.
//!
//! For shares `(x_j, y_j)` the secret is recovered as
//! `sum_j y_j * basis_j mod q`, where `basis_j` is the Lagrange basis
//! coefficient `prod_{m != j} (x - x_m) / (x_j - x_m)` evaluated at the
//! interpolation point (zero, for reconstruction), every quotient taken
//! via a modular inverse.

use vstd::arithmetic::div_mod::*;
use vstd::arithmetic::mul::*;
use vstd::prelude::*;

use crate::field::{
    gcd, inv_mod, is_prime, lemma_add_cong, lemma_inv_mod_unique, lemma_inv_mod_works,
    lemma_mod_cancel, lemma_mul_cong, lemma_prime_coprime, lemma_unit_coprime, lemma_unit_mul,
    lemma_wrap_mod, mod_inverse,
};
use crate::poly::poly_eval;
use crate::sss::ShamirError;

verus! {

/// The numerator of the Lagrange basis for index `j`: the product of
/// `(x - x_m) mod q` over the first `k` points, skipping `m == j`, each
/// difference written in the wrap-free form `x + q - x_m`.
pub open spec fn lag_num(x: int, xs: Seq<u64>, j: int, k: int, q: int) -> int
    decreases k,
{
    if k <= 0 {
        1
    } else {
        let prev = lag_num(x, xs, j, k - 1, q);
        if k - 1 == j {
            prev
        } else {
            (prev * ((x + q - xs[k - 1]) % q)) % q
        }
    }
}

/// The denominator of the Lagrange basis for index `j`: the product of
/// `(x_j - x_m) mod q` over the first `k` points, skipping `m == j`.
pub open spec fn lag_den(xs: Seq<u64>, j: int, k: int, q: int) -> int
    decreases k,
{
    if k <= 0 {
        1
    } else {
        let prev = lag_den(xs, j, k - 1, q);
        if k - 1 == j {
            prev
        } else {
            (prev * ((xs[j] + q - xs[k - 1]) % q)) % q
        }
    }
}

/// The x-coordinates of the first `t` shares.
pub open spec fn xs_of(shares: Seq<(u64, u64)>, t: int) -> Seq<u64> {
    Seq::new(t as nat, |i: int| shares[i].0)
}

/// The Lagrange basis coefficient of share `j` at the point zero.
pub open spec fn lag_basis0(shares: Seq<(u64, u64)>, j: int, t: int, q: int) -> int {
    (lag_num(0, xs_of(shares, t), j, t, q) * inv_mod(lag_den(xs_of(shares, t), j, t, q), q)) % q
}

/// The reconstructed value: `sum_{j < k} y_j * basis_j mod q`, over the
/// first `t` shares.
pub open spec fn lag_sum(shares: Seq<(u64, u64)>, k: int, t: int, q: int) -> int
    decreases k,
{
    if k <= 0 {
        0
    } else {
        (lag_sum(shares, k - 1, t, q) + shares[k - 1].1 * lag_basis0(shares, k - 1, t, q)) % q
    }
}

/// Every Lagrange denominator among the first `t` shares is coprime to
/// the modulus, i.e. every basis coefficient exists.
pub open spec fn denoms_invertible(shares: Seq<(u64, u64)>, t: int, q: int) -> bool {
    forall|j: int|
        0 <= j < t ==> gcd(q as nat, #[trigger] lag_den(xs_of(shares, t), j, t, q) as nat) == 1
}

/// A zero factor drives the whole denominator product to zero.
proof fn lemma_lag_den_zero_from(xs: Seq<u64>, j1: int, j2: int, k: int, q: int)
    requires
        q >= 1,
        0 <= j2 < k,
        0 <= j1,
        j1 != j2,
        j2 < xs.len(),
        j1 < xs.len(),
        xs[j1] == xs[j2],
    ensures
        lag_den(xs, j1, k, q) == 0,
    decreases k,
{
    lemma_mod_self_0(q);
    lemma_small_mod(0nat, q as nat);
    if k - 1 == j2 {
        assert(xs[j1] + q - xs[k - 1] == q);
        assert((lag_den(xs, j1, k - 1, q) * 0) % q == 0);
    } else {
        lemma_lag_den_zero_from(xs, j1, j2, k - 1, q);
        if k - 1 != j1 {
            assert((0 * ((xs[j1] + q - xs[k - 1]) % q)) % q == 0);
        }
    }
}

/// Two shares with the same x-coordinate make a Lagrange basis
/// denominator zero, so reconstruction over those shares reports
/// `NoInverseExists` rather than returning a wrong value.
pub proof fn lemma_duplicate_x_blocks(shares: Seq<(u64, u64)>, t: int, q: int, j1: int, j2: int)
    requires
        q >= 2,
        0 <= j1 < t,
        0 <= j2 < t,
        j1 != j2,
        t <= shares.len(),
        shares[j1].0 == shares[j2].0,
    ensures
        lag_den(xs_of(shares, t), j1, t, q) == 0,
        !denoms_invertible(shares, t, q),
{
    let xs = xs_of(shares, t);
    lemma_lag_den_zero_from(xs, j1, j2, t, q);
    assert(gcd(q as nat, 0nat) == q as nat);
    assert(gcd(q as nat, lag_den(xs_of(shares, t), j1, t, q) as nat) != 1);
}

/// The Lagrange basis coefficient for point `j` of `x_values`, evaluated
/// at `x`, over the field of size `q`.
///
/// Fails with `NoInverseExists` exactly when the denominator product
/// shares a factor with `q` — over a prime field, exactly when some
/// other point has the same x-coordinate modulo `q`.
pub fn lagrange_basis(x: u64, x_values: &[u64], j: usize, q: u64) -> (res: Result<
    u64,
    ShamirError,
>)
    requires
        q >= 2,
        j < x_values@.len(),
        x < q,
        forall|m: int| 0 <= m < x_values@.len() ==> x_values@[m] < q,
    ensures
        match res {
            Ok(b) => gcd(q as nat, lag_den(x_values@, j as int, x_values@.len() as int,
                q as int) as nat) == 1 && b < q && b as int == (lag_num(x as int, x_values@,
                j as int, x_values@.len() as int, q as int) * inv_mod(lag_den(x_values@, j as int,
                x_values@.len() as int, q as int), q as int)) % (q as int),
            Err(e) => e == ShamirError::NoInverseExists && gcd(q as nat, lag_den(x_values@,
                j as int, x_values@.len() as int, q as int) as nat) != 1,
        },
{
    let x_j = x_values[j];
    let mut numerator: u64 = 1;
    let mut denominator: u64 = 1;
    let mut m: usize = 0;
    while m < x_values.len()
        invariant
            q >= 2,
            x < q,
            j < x_values@.len(),
            m <= x_values@.len(),
            x_j == x_values@[j as int],
            forall|i: int| 0 <= i < x_values@.len() ==> x_values@[i] < q,
            numerator < q,
            denominator < q,
            numerator as int == lag_num(x as int, x_values@, j as int, m as int, q as int),
            denominator as int == lag_den(x_values@, j as int, m as int, q as int),
        decreases x_values@.len() - m,
    {
        if m != j {
            let x_m = x_values[m];
            let num_factor = ((x as u128 + q as u128 - x_m as u128) % (q as u128)) as u64;
            let den_factor = ((x_j as u128 + q as u128 - x_m as u128) % (q as u128)) as u64;
            proof {
                lemma_mul_upper_bound(numerator as int, u64::MAX as int, num_factor as int,
                    u64::MAX as int);
                lemma_mul_upper_bound(denominator as int, u64::MAX as int, den_factor as int,
                    u64::MAX as int);
            }
            numerator = ((numerator as u128 * num_factor as u128) % (q as u128)) as u64;
            denominator = ((denominator as u128 * den_factor as u128) % (q as u128)) as u64;
        }
        m = m + 1;
    }
    let den_ghost = denominator;
    match mod_inverse(denominator, q) {
        Ok(inv) => {
            proof {
                lemma_small_mod(den_ghost as nat, q as nat);
                lemma_mul_upper_bound(numerator as int, u64::MAX as int, inv as int,
                    u64::MAX as int);
            }
            let b = ((numerator as u128 * inv as u128) % (q as u128)) as u64;
            Ok(b)
        },
        Err(_) => {
            proof {
                lemma_small_mod(den_ghost as nat, q as nat);
            }
            Err(ShamirError::NoInverseExists)
        },
    }
}

/// Reconstructs the field element interpolated at zero from the first
/// `threshold` of the given shares.
///
/// Returns the Lagrange sum when every basis denominator is invertible,
/// and `NoInverseExists` otherwise.  The caller is responsible for the
/// `InsufficientShares` check.
pub fn interpolate_at_zero(shares: &[(u64, u64)], threshold: usize, q: u64) -> (res: Result<
    u64,
    ShamirError,
>)
    requires
        q >= 2,
        threshold <= shares@.len(),
        forall|m: int| 0 <= m < threshold ==> (#[trigger] shares@[m]).0 < q,
    ensures
        match res {
            Ok(s) => denoms_invertible(shares@, threshold as int, q as int) && s < q && s as int
                == lag_sum(shares@, threshold as int, threshold as int, q as int),
            Err(e) => e == ShamirError::NoInverseExists && !denoms_invertible(shares@,
                threshold as int, q as int),
        },
{
    let ghost t = threshold as int;
    let mut xs: Vec<u64> = Vec::new();
    let mut i: usize = 0;
    while i < threshold
        invariant
            threshold <= shares@.len(),
            i <= threshold,
            xs@.len() == i,
            forall|k: int| 0 <= k < i ==> xs@[k] == (#[trigger] shares@[k]).0,
        decreases threshold - i,
    {
        xs.push(shares[i].0);
        i = i + 1;
    }
    proof {
        assert(xs@ =~= xs_of(shares@, t));
    }
    let mut secret: u64 = 0;
    let mut j: usize = 0;
    while j < threshold
        invariant
            q >= 2,
            threshold <= shares@.len(),
            j <= threshold,
            xs@ == xs_of(shares@, threshold as int),
            xs@.len() == threshold,
            forall|m: int| 0 <= m < threshold ==> (#[trigger] shares@[m]).0 < q,
            forall|m: int| 0 <= m < xs@.len() ==> xs@[m] < q,
            secret < q,
            secret as int == lag_sum(shares@, j as int, threshold as int, q as int),
            forall|jj: int|
                0 <= jj < j ==> gcd(q as nat, #[trigger] lag_den(xs_of(shares@, threshold as int),
                    jj, threshold as int, q as int) as nat) == 1,
        decreases threshold - j,
    {
        match lagrange_basis(0, xs.as_slice(), j, q) {
            Ok(basis) => {
                let y_j = shares[j].1;
                proof {
                    lemma_mul_upper_bound(y_j as int, u64::MAX as int, basis as int,
                        u64::MAX as int);
                }
                let term = ((y_j as u128 * basis as u128) % (q as u128)) as u64;
                let updated = ((secret as u128 + term as u128) % (q as u128)) as u64;
                proof {
                    lemma_add_mod_noop_right(secret as int, y_j as int * basis as int, q as int);
                }
                secret = updated;
            },
            Err(_) => {
                return Err(ShamirError::NoInverseExists);
            },
        }
        j = j + 1;
    }
    Ok(secret)
}

/// Round trip for a threshold of two: reconstruction from any two
/// shares of a degree-one polynomial with distinct x-coordinates
/// returns exactly the polynomial's constant term, and both basis
/// denominators are invertible.
pub proof fn lemma_round_trip_pair(shares: Seq<(u64, u64)>, c: Seq<u64>, q: u64)
    requires
        is_prime(q as nat),
        c.len() == 2,
        c[0] < q,
        shares.len() >= 2,
        shares[0].0 < q,
        shares[1].0 < q,
        shares[0].0 != shares[1].0,
        shares[0].1 as int == poly_eval(c, shares[0].0 as int) % (q as int),
        shares[1].1 as int == poly_eval(c, shares[1].0 as int) % (q as int),
    ensures
        denoms_invertible(shares, 2, q as int),
        lag_sum(shares, 2, 2, q as int) == c[0],
{
    let qi = q as int;
    let x0 = shares[0].0 as int;
    let x1 = shares[1].0 as int;
    let y0 = shares[0].1 as int;
    let y1 = shares[1].1 as int;
    let a0 = c[0] as int;
    let a1 = c[1] as int;
    let xs = xs_of(shares, 2);
    assert(xs.len() == 2 && xs[0] == shares[0].0 && xs[1] == shares[1].0);

    // The shared polynomial is f(x) = a0 + x * a1.
    assert(poly_eval(c, x0) == a0 + x0 * a1 && poly_eval(c, x1) == a0 + x1 * a1) by {
        let c1 = c.drop_first();
        let c2 = c1.drop_first();
        assert(c1.len() == 1 && c1[0] == c[1]);
        assert(c2.len() == 0);
        assert(poly_eval(c2, x0) == 0 && poly_eval(c2, x1) == 0);
        assert(poly_eval(c1, x0) == a1 + x0 * poly_eval(c2, x0));
        assert(poly_eval(c1, x1) == a1 + x1 * poly_eval(c2, x1));
        assert(poly_eval(c, x0) == a0 + x0 * poly_eval(c1, x0));
        assert(poly_eval(c, x1) == a0 + x1 * poly_eval(c1, x1));
    }

    // The four products that make up the two basis coefficients.
    let n0 = (qi - x1) % qi;
    let n1 = (qi - x0) % qi;
    let d0 = (x0 + qi - x1) % qi;
    let d1 = (x1 + qi - x0) % qi;
    assert(lag_num(0, xs, 0, 2, qi) == n0 && lag_den(xs, 0, 2, qi) == d0 && lag_num(0, xs, 1, 2,
        qi) == n1 && lag_den(xs, 1, 2, qi) == d1) by {
        lemma_mod_twice(qi - x1, qi);
        lemma_mod_twice(qi - x0, qi);
        lemma_mod_twice(x0 + qi - x1, qi);
        lemma_mod_twice(x1 + qi - x0, qi);
        assert(lag_num(0, xs, 0, 0, qi) == 1 && lag_den(xs, 0, 0, qi) == 1 && lag_num(0, xs, 1, 0,
            qi) == 1 && lag_den(xs, 1, 0, qi) == 1);
        assert(lag_num(0, xs, 0, 1, qi) == 1 && lag_den(xs, 0, 1, qi) == 1);
        assert(lag_num(0, xs, 1, 1, qi) == (1 * ((0 + qi - xs[0]) % qi)) % qi);
        assert(lag_den(xs, 1, 1, qi) == (1 * ((xs[1] + qi - xs[0]) % qi)) % qi);
        assert(lag_num(0, xs, 0, 2, qi) == (1 * ((0 + qi - xs[1]) % qi)) % qi);
        assert(lag_den(xs, 0, 2, qi) == (1 * ((xs[0] + qi - xs[1]) % qi)) % qi);
        assert(lag_num(0, xs, 1, 2, qi) == lag_num(0, xs, 1, 1, qi));
        assert(lag_den(xs, 1, 2, qi) == lag_den(xs, 1, 1, qi));
    }

    // Both denominators are nonzero field elements, hence invertible.
    lemma_wrap_mod(x0 + qi - x1, qi);
    lemma_wrap_mod(x1 + qi - x0, qi);
    assert(0 < d0 < qi && 0 < d1 < qi && d0 + d1 == qi);
    lemma_prime_coprime(q as nat, d0 as nat);
    lemma_prime_coprime(q as nat, d1 as nat);
    assert(denoms_invertible(shares, 2, qi)) by {
        lemma_small_mod(d0 as nat, q as nat);
        lemma_small_mod(d1 as nat, q as nat);
        assert forall|j: int| 0 <= j < 2 implies gcd(qi as nat, #[trigger] lag_den(xs_of(shares,
            2), j, 2, qi) as nat) == 1 by {
            if j == 0 {
                assert(lag_den(xs_of(shares, 2), 0, 2, qi) == d0);
            } else {
                assert(lag_den(xs_of(shares, 2), 1, 2, qi) == d1);
            }
        }
    }

    // u inverts d0; qi - u inverts d1 = qi - d0.
    lemma_small_mod(d0 as nat, q as nat);
    lemma_small_mod(d1 as nat, q as nat);
    lemma_inv_mod_works(d0, qi);
    let u = inv_mod(d0, qi);
    assert(u != 0) by {
        if u == 0 {
            assert((d0 * 0) % qi == 0) by {
                lemma_small_mod(0nat, q as nat);
            }
        }
    }
    assert((d1 * (qi - u)) % qi == 1) by {
        assert(d1 * (qi - u) == qi * (qi - u - d0) + d0 * u) by (nonlinear_arith)
            requires
                d1 == qi - d0,
        ;
        lemma_mod_multiples_vanish(qi - u - d0, d0 * u, qi);
    }
    lemma_inv_mod_unique(d1, qi, qi - u);
    assert(inv_mod(d1, qi) == qi - u);

    // Unfold the Lagrange sum for two shares.
    let b0 = (n0 * u) % qi;
    let b1 = (n1 * (qi - u)) % qi;
    assert(lag_basis0(shares, 0, 2, qi) == b0 && lag_basis0(shares, 1, 2, qi) == b1);
    let t0 = (y0 * b0) % qi;
    assert(lag_sum(shares, 0, 2, qi) == 0);
    assert(lag_sum(shares, 1, 2, qi) == t0);
    let s = lag_sum(shares, 2, 2, qi);
    assert(s == (t0 + y1 * b1) % qi);

    // Pull the reductions out of the products.
    assert(s == (y0 * (n0 * u) + y1 * (n1 * (qi - u))) % qi) by {
        lemma_mod_twice(n0 * u, qi);
        lemma_mod_twice(n1 * (qi - u), qi);
        lemma_mul_cong(y0, y0, b0, n0 * u, qi);
        lemma_mul_cong(y1, y1, b1, n1 * (qi - u), qi);
        lemma_mod_twice(y0 * (n0 * u), qi);
        lemma_add_cong(t0, y0 * (n0 * u), y1 * b1, y1 * (n1 * (qi - u)), qi);
    }

    // Replace each factor with a congruent unreduced form.
    assert(s == ((a0 + x0 * a1) * ((qi - x1) * u) + (a0 + x1 * a1) * ((qi - x0) * (qi - u)))
        % qi) by {
        lemma_mod_twice(qi - x1, qi);
        lemma_mod_twice(qi - x0, qi);
        lemma_mod_twice(poly_eval(c, x0), qi);
        lemma_mod_twice(poly_eval(c, x1), qi);
        lemma_mul_cong(n0, qi - x1, u, u, qi);
        lemma_mul_cong(n1, qi - x0, qi - u, qi - u, qi);
        lemma_mul_cong(y0, a0 + x0 * a1, n0 * u, (qi - x1) * u, qi);
        lemma_mul_cong(y1, a0 + x1 * a1, n1 * (qi - u), (qi - x0) * (qi - u), qi);
        lemma_add_cong(y0 * (n0 * u), (a0 + x0 * a1) * ((qi - x1) * u), y1 * (n1 * (qi - u)), (a0
            + x1 * a1) * ((qi - x0) * (qi - u)), qi);
    }

    // Drop the wrap-around offsets: qi - x1 == -x1, qi - u == -u (mod qi).
    assert(s == ((a0 + x0 * a1) * ((-x1) * u) + (a0 + x1 * a1) * ((-x0) * (-u))) % qi) by {
        lemma_mod_add_multiples_vanish(-x1, qi);
        lemma_mod_add_multiples_vanish(-x0, qi);
        lemma_mod_add_multiples_vanish(-u, qi);
        lemma_mul_cong(qi - x1, -x1, u, u, qi);
        lemma_mul_cong(qi - x0, -x0, qi - u, -u, qi);
        lemma_mul_cong(a0 + x0 * a1, a0 + x0 * a1, (qi - x1) * u, (-x1) * u, qi);
        lemma_mul_cong(a0 + x1 * a1, a0 + x1 * a1, (qi - x0) * (qi - u), (-x0) * (-u), qi);
        lemma_add_cong((a0 + x0 * a1) * ((qi - x1) * u), (a0 + x0 * a1) * ((-x1) * u), (a0 + x1
            * a1) * ((qi - x0) * (qi - u)), (a0 + x1 * a1) * ((-x0) * (-u)), qi);
    }

    // The cross terms cancel, leaving a0 * (x0 - x1) * u.
    assert((a0 + x0 * a1) * ((-x1) * u) == (-(a0 * x1) - a1 * (x0 * x1)) * u) by (nonlinear_arith);
    assert((a0 + x1 * a1) * ((-x0) * (-u)) == (a0 * x0 + a1 * (x0 * x1)) * u) by (nonlinear_arith);
    assert((-(a0 * x1) - a1 * (x0 * x1)) * u + (a0 * x0 + a1 * (x0 * x1)) * u == (a0 * (x0 - x1))
        * u) by (nonlinear_arith);

    // x0 - x1 == d0 (mod qi), and d0 * u == 1 (mod qi), so s == a0.
    assert(s == ((a0 * d0) * u) % qi) by {
        lemma_mod_add_multiples_vanish(x0 - x1, qi);
        lemma_mod_twice(x0 + qi - x1, qi);
        lemma_mul_cong(a0, a0, x0 - x1, d0, qi);
        lemma_mul_cong(a0 * (x0 - x1), a0 * d0, u, u, qi);
    }
    assert((a0 * d0) * u == a0 * (d0 * u)) by (nonlinear_arith);
    assert(s == (a0 * 1) % qi) by {
        lemma_mod_twice(d0 * u, qi);
        lemma_small_mod(1nat, q as nat);
        lemma_mul_cong(a0, a0, d0 * u, 1, qi);
    }
    assert(s == a0) by {
        lemma_small_mod(a0 as nat, q as nat);
    }
}

/// A two-factor basis product, in the shape the recursive definitions
/// build it: reduced, and congruent to the product of the unreduced
/// differences.
proof fn lemma_two_factor_chain(r1: int, r2: int, p1: int, p2: int, v: int, m: int)
    requires
        m >= 2,
        v == (((1 * r1) % m) * r2) % m,
        r1 % m == p1 % m,
        r2 % m == p2 % m,
    ensures
        0 <= v < m,
        v % m == (p1 * p2) % m,
{
    lemma_mod_bound(((1 * r1) % m) * r2, m);
    lemma_mod_twice(r1, m);
    lemma_mul_cong(r1 % m, p1, r2, p2, m);
    lemma_mod_twice(((1 * r1) % m) * r2, m);
}

/// The algebraic heart of three-point interpolation at zero: with each
/// denominator a product of pairwise differences, the weighted sum of
/// the three polynomial values collapses to the constant term times the
/// product of all three denominators.
proof fn lemma_interp_three_identity(
    a0: int,
    a1: int,
    a2: int,
    x0: int,
    x1: int,
    x2: int,
    y0: int,
    y1: int,
    y2: int,
    d0: int,
    d1: int,
    d2: int,
)
    requires
        y0 == a0 + a1 * x0 + a2 * (x0 * x0),
        y1 == a0 + a1 * x1 + a2 * (x1 * x1),
        y2 == a0 + a1 * x2 + a2 * (x2 * x2),
        d0 == (x0 - x1) * (x0 - x2),
        d1 == (x1 - x0) * (x1 - x2),
        d2 == (x2 - x0) * (x2 - x1),
    ensures
        (y0 * (x1 * x2)) * (d1 * d2) + (y1 * (x0 * x2)) * (d0 * d2) + (y2 * (x0 * x1)) * (d0 * d1)
            == a0 * (d0 * (d1 * d2)),
{
    let e01 = x0 - x1;
    let e02 = x0 - x2;
    let e12 = x1 - x2;
    let p = e01 * (e02 * e12);
    let m0 = (x1 * x2) * e12;
    let m1 = (x0 * x2) * e02;
    let m2 = (x0 * x1) * e01;

    // Each pair of denominators is a signed multiple of p.
    assert(d1 * d2 == -(e12 * p)) by (nonlinear_arith)
        requires
            d1 == (x1 - x0) * (x1 - x2),
            d2 == (x2 - x0) * (x2 - x1),
            p == (x0 - x1) * ((x0 - x2) * (x1 - x2)),
            e12 == x1 - x2,
    ;
    assert(d0 * d2 == e02 * p) by (nonlinear_arith)
        requires
            d0 == (x0 - x1) * (x0 - x2),
            d2 == (x2 - x0) * (x2 - x1),
            p == (x0 - x1) * ((x0 - x2) * (x1 - x2)),
            e02 == x0 - x2,
    ;
    assert(d0 * d1 == -(e01 * p)) by (nonlinear_arith)
        requires
            d0 == (x0 - x1) * (x0 - x2),
            d1 == (x1 - x0) * (x1 - x2),
            p == (x0 - x1) * ((x0 - x2) * (x1 - x2)),
            e01 == x0 - x1,
    ;
    assert(d0 * (d1 * d2) == -(p * p)) by (nonlinear_arith)
        requires
            d0 == (x0 - x1) * (x0 - x2),
            d1 == (x1 - x0) * (x1 - x2),
            d2 == (x2 - x0) * (x2 - x1),
            p == (x0 - x1) * ((x0 - x2) * (x1 - x2)),
    ;

    // Factor p out of each summand, leaving the bracket B.
    assert((y0 * (x1 * x2)) * (d1 * d2) == -((y0 * m0) * p)) by (nonlinear_arith)
        requires
            d1 * d2 == -(e12 * p),
            m0 == (x1 * x2) * e12,
    ;
    assert((y1 * (x0 * x2)) * (d0 * d2) == (y1 * m1) * p) by (nonlinear_arith)
        requires
            d0 * d2 == e02 * p,
            m1 == (x0 * x2) * e02,
    ;
    assert((y2 * (x0 * x1)) * (d0 * d1) == -((y2 * m2) * p)) by (nonlinear_arith)
        requires
            d0 * d1 == -(e01 * p),
            m2 == (x0 * x1) * e01,
    ;
    let bb = -(y0 * m0) + y1 * m1 - y2 * m2;
    assert(-((y0 * m0) * p) + (y1 * m1) * p + -((y2 * m2) * p) == bb * p) by (nonlinear_arith)
        requires
            bb == -(y0 * m0) + y1 * m1 - y2 * m2,
    ;

    // Split B by coefficient of the polynomial.
    let b0 = -m0 + m1 - m2;
    let b1 = -(x0 * m0) + x1 * m1 - x2 * m2;
    let b2 = -((x0 * x0) * m0) + (x1 * x1) * m1 - (x2 * x2) * m2;
    assert(y0 * m0 == a0 * m0 + (a1 * (x0 * m0) + a2 * ((x0 * x0) * m0))) by (nonlinear_arith)
        requires
            y0 == a0 + a1 * x0 + a2 * (x0 * x0),
    ;
    assert(y1 * m1 == a0 * m1 + (a1 * (x1 * m1) + a2 * ((x1 * x1) * m1))) by (nonlinear_arith)
        requires
            y1 == a0 + a1 * x1 + a2 * (x1 * x1),
    ;
    assert(y2 * m2 == a0 * m2 + (a1 * (x2 * m2) + a2 * ((x2 * x2) * m2))) by (nonlinear_arith)
        requires
            y2 == a0 + a1 * x2 + a2 * (x2 * x2),
    ;
    assert(a0 * b0 == a0 * m1 - (a0 * m0 + a0 * m2)) by (nonlinear_arith)
        requires
            b0 == -m0 + m1 - m2,
    ;
    assert(a1 * b1 == a1 * (x1 * m1) - (a1 * (x0 * m0) + a1 * (x2 * m2))) by (nonlinear_arith)
        requires
            b1 == -(x0 * m0) + x1 * m1 - x2 * m2,
    ;
    assert(a2 * b2 == a2 * ((x1 * x1) * m1) - (a2 * ((x0 * x0) * m0) + a2 * ((x2 * x2)
        * m2))) by (nonlinear_arith)
        requires
            b2 == -((x0 * x0) * m0) + (x1 * x1) * m1 - (x2 * x2) * m2,
    ;
    assert(bb == a0 * b0 + (a1 * b1 + a2 * b2));

    // Expand each basis product into canonical monomials.
    assert(m0 == (x1 * x1) * x2 - x1 * (x2 * x2)) by (nonlinear_arith)
        requires
            m0 == (x1 * x2) * (x1 - x2),
    ;
    assert(m1 == (x0 * x0) * x2 - x0 * (x2 * x2)) by (nonlinear_arith)
        requires
            m1 == (x0 * x2) * (x0 - x2),
    ;
    assert(m2 == (x0 * x0) * x1 - x0 * (x1 * x1)) by (nonlinear_arith)
        requires
            m2 == (x0 * x1) * (x0 - x1),
    ;

    // The higher coefficients drop out; the constant keeps -p.
    assert(e02 * e12 == x0 * x1 - (x0 * x2 + x1 * x2) + x2 * x2) by (nonlinear_arith)
        requires
            e02 == x0 - x2,
            e12 == x1 - x2,
    ;
    assert(x0 * (e02 * e12) == (x0 * x0) * x1 - ((x0 * x0) * x2 + x0 * (x1 * x2)) + x0 * (x2
        * x2)) by (nonlinear_arith)
        requires
            e02 * e12 == x0 * x1 - (x0 * x2 + x1 * x2) + x2 * x2,
    ;
    assert(x1 * (e02 * e12) == x0 * (x1 * x1) - (x0 * (x1 * x2) + (x1 * x1) * x2) + x1 * (x2
        * x2)) by (nonlinear_arith)
        requires
            e02 * e12 == x0 * x1 - (x0 * x2 + x1 * x2) + x2 * x2,
    ;
    assert(p == x0 * (e02 * e12) - x1 * (e02 * e12)) by (nonlinear_arith)
        requires
            p == e01 * (e02 * e12),
            e01 == x0 - x1,
    ;
    assert(b0 == -p);

    assert(x0 * m0 == (x0 * (x1 * x1)) * x2 - (x0 * x1) * (x2 * x2)) by (nonlinear_arith)
        requires
            m0 == (x1 * x1) * x2 - x1 * (x2 * x2),
    ;
    assert(x1 * m1 == ((x0 * x0) * x1) * x2 - (x0 * x1) * (x2 * x2)) by (nonlinear_arith)
        requires
            m1 == (x0 * x0) * x2 - x0 * (x2 * x2),
    ;
    assert(x2 * m2 == ((x0 * x0) * x1) * x2 - (x0 * (x1 * x1)) * x2) by (nonlinear_arith)
        requires
            m2 == (x0 * x0) * x1 - x0 * (x1 * x1),
    ;
    assert(b1 == 0);

    assert((x0 * x0) * m0 == ((x0 * x0) * (x1 * x1)) * x2 - ((x0 * x0) * x1) * (x2
        * x2)) by (nonlinear_arith)
        requires
            m0 == (x1 * x1) * x2 - x1 * (x2 * x2),
    ;
    assert((x1 * x1) * m1 == ((x0 * x0) * (x1 * x1)) * x2 - (x0 * (x1 * x1)) * (x2
        * x2)) by (nonlinear_arith)
        requires
            m1 == (x0 * x0) * x2 - x0 * (x2 * x2),
    ;
    assert((x2 * x2) * m2 == ((x0 * x0) * x1) * (x2 * x2) - (x0 * (x1 * x1)) * (x2
        * x2)) by (nonlinear_arith)
        requires
            m2 == (x0 * x0) * x1 - x0 * (x1 * x1),
    ;
    assert(b2 == 0);

    assert(a1 * b1 == 0) by (nonlinear_arith)
        requires
            b1 == 0,
    ;
    assert(a2 * b2 == 0) by (nonlinear_arith)
        requires
            b2 == 0,
    ;
    assert(bb == a0 * b0);
    assert(bb == a0 * (-p)) by (nonlinear_arith)
        requires
            bb == a0 * b0,
            b0 == -p,
    ;
    assert(bb * p == a0 * (d0 * (d1 * d2))) by (nonlinear_arith)
        requires
            bb == a0 * (-p),
            d0 * (d1 * d2) == -(p * p),
    ;
}

/// Round trip for a threshold of three: reconstruction from any three
/// shares of a degree-two polynomial with pairwise distinct
/// x-coordinates returns exactly the polynomial's constant term, and
/// every basis denominator is invertible.
pub proof fn lemma_round_trip_triple(shares: Seq<(u64, u64)>, c: Seq<u64>, q: u64)
    requires
        is_prime(q as nat),
        c.len() == 3,
        c[0] < q,
        shares.len() >= 3,
        shares[0].0 < q,
        shares[1].0 < q,
        shares[2].0 < q,
        shares[0].0 != shares[1].0,
        shares[0].0 != shares[2].0,
        shares[1].0 != shares[2].0,
        shares[0].1 as int == poly_eval(c, shares[0].0 as int) % (q as int),
        shares[1].1 as int == poly_eval(c, shares[1].0 as int) % (q as int),
        shares[2].1 as int == poly_eval(c, shares[2].0 as int) % (q as int),
    ensures
        denoms_invertible(shares, 3, q as int),
        lag_sum(shares, 3, 3, q as int) == c[0],
{
    let qi = q as int;
    let x0 = shares[0].0 as int;
    let x1 = shares[1].0 as int;
    let x2 = shares[2].0 as int;
    let y0 = shares[0].1 as int;
    let y1 = shares[1].1 as int;
    let y2 = shares[2].1 as int;
    let a0 = c[0] as int;
    let a1 = c[1] as int;
    let a2 = c[2] as int;
    let xs = xs_of(shares, 3);
    assert(xs.len() == 3 && xs[0] == shares[0].0 && xs[1] == shares[1].0 && xs[2] == shares[2].0);

    // The shared polynomial is f(x) = a0 + a1 x + a2 x^2.
    let yy0 = a0 + a1 * x0 + a2 * (x0 * x0);
    let yy1 = a0 + a1 * x1 + a2 * (x1 * x1);
    let yy2 = a0 + a1 * x2 + a2 * (x2 * x2);
    assert(poly_eval(c, x0) == yy0 && poly_eval(c, x1) == yy1 && poly_eval(c, x2) == yy2) by {
        let c1 = c.drop_first();
        let c2 = c1.drop_first();
        let c3 = c2.drop_first();
        assert(c1.len() == 2 && c1[0] == c[1] && c1[1] == c[2]);
        assert(c2.len() == 1 && c2[0] == c[2]);
        assert(c3.len() == 0);
        assert(poly_eval(c3, x0) == 0 && poly_eval(c3, x1) == 0 && poly_eval(c3, x2) == 0);
        assert(poly_eval(c2, x0) == a2 && poly_eval(c2, x1) == a2 && poly_eval(c2, x2) == a2);
        assert(poly_eval(c1, x0) == a1 + x0 * a2);
        assert(poly_eval(c1, x1) == a1 + x1 * a2);
        assert(poly_eval(c1, x2) == a1 + x2 * a2);
        assert(poly_eval(c, x0) == a0 + x0 * (a1 + x0 * a2));
        assert(poly_eval(c, x1) == a0 + x1 * (a1 + x1 * a2));
        assert(poly_eval(c, x2) == a0 + x2 * (a1 + x2 * a2));
        assert(a0 + x0 * (a1 + x0 * a2) == yy0) by (nonlinear_arith)
            requires
                yy0 == a0 + a1 * x0 + a2 * (x0 * x0),
        ;
        assert(a0 + x1 * (a1 + x1 * a2) == yy1) by (nonlinear_arith)
            requires
                yy1 == a0 + a1 * x1 + a2 * (x1 * x1),
        ;
        assert(a0 + x2 * (a1 + x2 * a2) == yy2) by (nonlinear_arith)
            requires
                yy2 == a0 + a1 * x2 + a2 * (x2 * x2),
        ;
    }

    // Reduced difference factors, and their unreduced counterparts.
    let g0 = (0 + qi - xs[0] as int) % qi;
    let g1 = (0 + qi - xs[1] as int) % qi;
    let g2 = (0 + qi - xs[2] as int) % qi;
    let f01 = (xs[0] as int + qi - xs[1] as int) % qi;
    let f02 = (xs[0] as int + qi - xs[2] as int) % qi;
    let f10 = (xs[1] as int + qi - xs[0] as int) % qi;
    let f12 = (xs[1] as int + qi - xs[2] as int) % qi;
    let f20 = (xs[2] as int + qi - xs[0] as int) % qi;
    let f21 = (xs[2] as int + qi - xs[1] as int) % qi;
    assert(g0 % qi == (-x0) % qi && g1 % qi == (-x1) % qi && g2 % qi == (-x2) % qi) by {
        lemma_mod_twice(qi - x0, qi);
        lemma_mod_twice(qi - x1, qi);
        lemma_mod_twice(qi - x2, qi);
        lemma_mod_add_multiples_vanish(-x0, qi);
        lemma_mod_add_multiples_vanish(-x1, qi);
        lemma_mod_add_multiples_vanish(-x2, qi);
    }
    assert(f01 % qi == (x0 - x1) % qi && f02 % qi == (x0 - x2) % qi && f10 % qi == (x1 - x0) % qi
        && f12 % qi == (x1 - x2) % qi && f20 % qi == (x2 - x0) % qi && f21 % qi == (x2 - x1)
        % qi) by {
        lemma_mod_twice(x0 + qi - x1, qi);
        lemma_mod_twice(x0 + qi - x2, qi);
        lemma_mod_twice(x1 + qi - x0, qi);
        lemma_mod_twice(x1 + qi - x2, qi);
        lemma_mod_twice(x2 + qi - x0, qi);
        lemma_mod_twice(x2 + qi - x1, qi);
        lemma_mod_add_multiples_vanish(x0 - x1, qi);
        lemma_mod_add_multiples_vanish(x0 - x2, qi);
        lemma_mod_add_multiples_vanish(x1 - x0, qi);
        lemma_mod_add_multiples_vanish(x1 - x2, qi);
        lemma_mod_add_multiples_vanish(x2 - x0, qi);
        lemma_mod_add_multiples_vanish(x2 - x1, qi);
    }

    // Each denominator factor is a nonzero field element, so invertible.
    lemma_wrap_mod(x0 + qi - x1, qi);
    lemma_wrap_mod(x0 + qi - x2, qi);
    lemma_wrap_mod(x1 + qi - x0, qi);
    lemma_wrap_mod(x1 + qi - x2, qi);
    lemma_wrap_mod(x2 + qi - x0, qi);
    lemma_wrap_mod(x2 + qi - x1, qi);
    assert(0 < f01 < qi && 0 < f02 < qi && 0 < f10 < qi && 0 < f12 < qi && 0 < f20 < qi && 0 < f21
        < qi);
    lemma_prime_coprime(q as nat, f01 as nat);
    lemma_prime_coprime(q as nat, f02 as nat);
    lemma_prime_coprime(q as nat, f10 as nat);
    lemma_prime_coprime(q as nat, f12 as nat);
    lemma_prime_coprime(q as nat, f20 as nat);
    lemma_prime_coprime(q as nat, f21 as nat);
    lemma_small_mod(f01 as nat, q as nat);
    lemma_small_mod(f02 as nat, q as nat);
    lemma_small_mod(f10 as nat, q as nat);
    lemma_small_mod(f12 as nat, q as nat);
    lemma_small_mod(f20 as nat, q as nat);
    lemma_small_mod(f21 as nat, q as nat);
    lemma_inv_mod_works(f01, qi);
    lemma_inv_mod_works(f02, qi);
    lemma_inv_mod_works(f10, qi);
    lemma_inv_mod_works(f12, qi);
    lemma_inv_mod_works(f20, qi);
    lemma_inv_mod_works(f21, qi);

    // Unfold the three numerators and denominators.
    let nn0 = lag_num(0, xs, 0, 3, qi);
    let nn1 = lag_num(0, xs, 1, 3, qi);
    let nn2 = lag_num(0, xs, 2, 3, qi);
    let dd0 = lag_den(xs, 0, 3, qi);
    let dd1 = lag_den(xs, 1, 3, qi);
    let dd2 = lag_den(xs, 2, 3, qi);
    assert(nn0 == (((1 * g1) % qi) * g2) % qi && dd0 == (((1 * f01) % qi) * f02) % qi) by {
        assert(lag_num(0, xs, 0, 0, qi) == 1 && lag_den(xs, 0, 0, qi) == 1);
        assert(lag_num(0, xs, 0, 1, qi) == 1 && lag_den(xs, 0, 1, qi) == 1);
        assert(lag_num(0, xs, 0, 2, qi) == (1 * g1) % qi && lag_den(xs, 0, 2, qi) == (1 * f01)
            % qi);
    }
    assert(nn1 == (((1 * g0) % qi) * g2) % qi && dd1 == (((1 * f10) % qi) * f12) % qi) by {
        assert(lag_num(0, xs, 1, 0, qi) == 1 && lag_den(xs, 1, 0, qi) == 1);
        assert(lag_num(0, xs, 1, 1, qi) == (1 * g0) % qi && lag_den(xs, 1, 1, qi) == (1 * f10)
            % qi);
        assert(lag_num(0, xs, 1, 2, qi) == (1 * g0) % qi && lag_den(xs, 1, 2, qi) == (1 * f10)
            % qi);
    }
    assert(nn2 == (((1 * g0) % qi) * g1) % qi && dd2 == (((1 * f20) % qi) * f21) % qi) by {
        assert(lag_num(0, xs, 2, 0, qi) == 1 && lag_den(xs, 2, 0, qi) == 1);
        assert(lag_num(0, xs, 2, 1, qi) == (1 * g0) % qi && lag_den(xs, 2, 1, qi) == (1 * f20)
            % qi);
        assert(lag_num(0, xs, 2, 2, qi) == (((1 * g0) % qi) * g1) % qi && lag_den(xs, 2, 2, qi)
            == (((1 * f20) % qi) * f21) % qi);
    }
    lemma_two_factor_chain(g1, g2, -x1, -x2, nn0, qi);
    lemma_two_factor_chain(g0, g2, -x0, -x2, nn1, qi);
    lemma_two_factor_chain(g0, g1, -x0, -x1, nn2, qi);
    lemma_two_factor_chain(f01, f02, x0 - x1, x0 - x2, dd0, qi);
    lemma_two_factor_chain(f10, f12, x1 - x0, x1 - x2, dd1, qi);
    lemma_two_factor_chain(f20, f21, x2 - x0, x2 - x1, dd2, qi);
    let d0 = (x0 - x1) * (x0 - x2);
    let d1 = (x1 - x0) * (x1 - x2);
    let d2 = (x2 - x0) * (x2 - x1);

    // Each denominator is a product of two units, hence itself a unit.
    let w0 = inv_mod(f01, qi) * inv_mod(f02, qi);
    let w1 = inv_mod(f10, qi) * inv_mod(f12, qi);
    let w2 = inv_mod(f20, qi) * inv_mod(f21, qi);
    assert((dd0 * w0) % qi == 1 && (dd1 * w1) % qi == 1 && (dd2 * w2) % qi == 1) by {
        lemma_two_factor_chain(f01, f02, f01, f02, dd0, qi);
        lemma_two_factor_chain(f10, f12, f10, f12, dd1, qi);
        lemma_two_factor_chain(f20, f21, f20, f21, dd2, qi);
        lemma_unit_mul(f01, inv_mod(f01, qi), f02, inv_mod(f02, qi), qi);
        lemma_unit_mul(f10, inv_mod(f10, qi), f12, inv_mod(f12, qi), qi);
        lemma_unit_mul(f20, inv_mod(f20, qi), f21, inv_mod(f21, qi), qi);
        lemma_mod_twice((f01 * f02) * w0, qi);
        lemma_mod_twice((f10 * f12) * w1, qi);
        lemma_mod_twice((f20 * f21) * w2, qi);
        lemma_mul_cong(dd0, f01 * f02, w0, w0, qi);
        lemma_mul_cong(dd1, f10 * f12, w1, w1, qi);
        lemma_mul_cong(dd2, f20 * f21, w2, w2, qi);
        lemma_small_mod(1nat, q as nat);
    }
    lemma_unit_coprime(dd0, w0, qi);
    lemma_unit_coprime(dd1, w1, qi);
    lemma_unit_coprime(dd2, w2, qi);
    assert(denoms_invertible(shares, 3, qi)) by {
        assert forall|j: int| 0 <= j < 3 implies gcd(qi as nat, #[trigger] lag_den(xs_of(shares,
            3), j, 3, qi) as nat) == 1 by {
            if j == 0 {
                assert(lag_den(xs_of(shares, 3), 0, 3, qi) == dd0);
            } else if j == 1 {
                assert(lag_den(xs_of(shares, 3), 1, 3, qi) == dd1);
            } else {
                assert(lag_den(xs_of(shares, 3), 2, 3, qi) == dd2);
            }
        }
    }

    // The true inverses of the denominators.
    lemma_small_mod(dd0 as nat, q as nat);
    lemma_small_mod(dd1 as nat, q as nat);
    lemma_small_mod(dd2 as nat, q as nat);
    lemma_inv_mod_works(dd0, qi);
    lemma_inv_mod_works(dd1, qi);
    lemma_inv_mod_works(dd2, qi);
    let u0 = inv_mod(dd0, qi);
    let u1 = inv_mod(dd1, qi);
    let u2 = inv_mod(dd2, qi);

    // Unfold the Lagrange sum.
    let b0 = (nn0 * u0) % qi;
    let b1 = (nn1 * u1) % qi;
    let b2 = (nn2 * u2) % qi;
    assert(lag_basis0(shares, 0, 3, qi) == b0 && lag_basis0(shares, 1, 3, qi) == b1
        && lag_basis0(shares, 2, 3, qi) == b2);
    let s1 = (y0 * b0) % qi;
    let s2 = (s1 + y1 * b1) % qi;
    let s = lag_sum(shares, 3, 3, qi);
    assert(lag_sum(shares, 0, 3, qi) == 0);
    assert(lag_sum(shares, 1, 3, qi) == s1);
    assert(lag_sum(shares, 2, 3, qi) == s2);
    assert(s == (s2 + y2 * b2) % qi);

    // s is congruent to the three-term weighted sum.
    let t0 = y0 * (nn0 * u0);
    let t1 = y1 * (nn1 * u1);
    let t2 = y2 * (nn2 * u2);
    assert(s % qi == (t0 + (t1 + t2)) % qi) by {
        lemma_mod_twice(nn0 * u0, qi);
        lemma_mod_twice(nn1 * u1, qi);
        lemma_mod_twice(nn2 * u2, qi);
        lemma_mul_cong(y0, y0, b0, nn0 * u0, qi);
        lemma_mul_cong(y1, y1, b1, nn1 * u1, qi);
        lemma_mul_cong(y2, y2, b2, nn2 * u2, qi);
        lemma_mod_twice(y0 * b0, qi);
        lemma_add_cong(s1, t0, y1 * b1, t1, qi);
        lemma_mod_twice(s1 + y1 * b1, qi);
        lemma_add_cong(s2, t0 + t1, y2 * b2, t2, qi);
        lemma_mod_twice(s2 + y2 * b2, qi);
        lemma_mod_twice(s, qi);
    }

    // Multiply through by the product of the three denominators.
    let cc = dd0 * (dd1 * dd2);
    let ww = u0 * (u1 * u2);
    assert((cc * ww) % qi == 1) by {
        lemma_unit_mul(dd1, u1, dd2, u2, qi);
        lemma_unit_mul(dd0, u0, dd1 * dd2, u1 * u2, qi);
    }

    // (s * cc) == (a0 * cc) (mod qi): each term sheds its inverse.
    let z0 = (yy0 * ((-x1) * (-x2))) * (d1 * d2);
    let z1 = (yy1 * ((-x0) * (-x2))) * (d0 * d2);
    let z2 = (yy2 * ((-x0) * (-x1))) * (d0 * d1);
    assert(((t0 + (t1 + t2)) * cc) % qi == (z0 + (z1 + z2)) % qi) by {
        assert(t0 * cc == ((y0 * nn0) * (dd1 * dd2)) * (dd0 * u0)) by (nonlinear_arith)
            requires
                t0 == y0 * (nn0 * u0),
                cc == dd0 * (dd1 * dd2),
        ;
        assert(t1 * cc == ((y1 * nn1) * (dd0 * dd2)) * (dd1 * u1)) by (nonlinear_arith)
            requires
                t1 == y1 * (nn1 * u1),
                cc == dd0 * (dd1 * dd2),
        ;
        assert(t2 * cc == ((y2 * nn2) * (dd0 * dd1)) * (dd2 * u2)) by (nonlinear_arith)
            requires
                t2 == y2 * (nn2 * u2),
                cc == dd0 * (dd1 * dd2),
        ;
        lemma_small_mod(1nat, q as nat);
        lemma_mul_cong((y0 * nn0) * (dd1 * dd2), (y0 * nn0) * (dd1 * dd2), dd0 * u0, 1, qi);
        lemma_mul_cong((y1 * nn1) * (dd0 * dd2), (y1 * nn1) * (dd0 * dd2), dd1 * u1, 1, qi);
        lemma_mul_cong((y2 * nn2) * (dd0 * dd1), (y2 * nn2) * (dd0 * dd1), dd2 * u2, 1, qi);
        // Replace every reduced factor by its unreduced counterpart.
        lemma_mod_twice(poly_eval(c, x0), qi);
        lemma_mod_twice(poly_eval(c, x1), qi);
        lemma_mod_twice(poly_eval(c, x2), qi);
        lemma_mul_cong(y0, yy0, nn0, (-x1) * (-x2), qi);
        lemma_mul_cong(y1, yy1, nn1, (-x0) * (-x2), qi);
        lemma_mul_cong(y2, yy2, nn2, (-x0) * (-x1), qi);
        lemma_mul_cong(dd1, d1, dd2, d2, qi);
        lemma_mul_cong(dd0, d0, dd2, d2, qi);
        lemma_mul_cong(dd0, d0, dd1, d1, qi);
        lemma_mul_cong(y0 * nn0, yy0 * ((-x1) * (-x2)), dd1 * dd2, d1 * d2, qi);
        lemma_mul_cong(y1 * nn1, yy1 * ((-x0) * (-x2)), dd0 * dd2, d0 * d2, qi);
        lemma_mul_cong(y2 * nn2, yy2 * ((-x0) * (-x1)), dd0 * dd1, d0 * d1, qi);
        // Reassemble the sum.
        assert((t0 + (t1 + t2)) * cc == t0 * cc + (t1 * cc + t2 * cc)) by (nonlinear_arith);
        lemma_mod_twice(t0 * cc, qi);
        lemma_mod_twice(t1 * cc, qi);
        lemma_mod_twice(t2 * cc, qi);
        lemma_add_cong(t1 * cc, z1, t2 * cc, z2, qi);
        lemma_add_cong(t0 * cc, z0, t1 * cc + t2 * cc, z1 + z2, qi);
    }

    // The interpolation identity collapses the sum to a0 * cc.
    assert((z0 + (z1 + z2)) % qi == (a0 * cc) % qi) by {
        assert(z0 == (yy0 * (x1 * x2)) * (d1 * d2)) by (nonlinear_arith)
            requires
                z0 == (yy0 * ((-x1) * (-x2))) * (d1 * d2),
        ;
        assert(z1 == (yy1 * (x0 * x2)) * (d0 * d2)) by (nonlinear_arith)
            requires
                z1 == (yy1 * ((-x0) * (-x2))) * (d0 * d2),
        ;
        assert(z2 == (yy2 * (x0 * x1)) * (d0 * d1)) by (nonlinear_arith)
            requires
                z2 == (yy2 * ((-x0) * (-x1))) * (d0 * d1),
        ;
        lemma_interp_three_identity(a0, a1, a2, x0, x1, x2, yy0, yy1, yy2, d0, d1, d2);
        assert(z0 + (z1 + z2) == a0 * (d0 * (d1 * d2)));
        lemma_mul_cong(dd1, d1, dd2, d2, qi);
        lemma_mul_cong(dd0, d0, dd1 * dd2, d1 * d2, qi);
        lemma_mul_cong(a0, a0, d0 * (d1 * d2), dd0 * (dd1 * dd2), qi);
    }

    // Cancel the denominator product and compare field elements.
    assert((s * cc) % qi == (a0 * cc) % qi) by {
        lemma_mul_cong(s, t0 + (t1 + t2), cc, cc, qi);
    }
    lemma_mod_cancel(s, a0, cc, ww, qi);
    lemma_mod_bound(s2 + y2 * b2, qi);
    lemma_small_mod(s as nat, q as nat);
    lemma_small_mod(a0 as nat, q as nat);
}

/// Subset invariance for a threshold of three: any two triples of
/// shares of the same degree-two polynomial, each triple with pairwise
/// distinct x-coordinates, reconstruct the same value — the constant
/// term.
pub proof fn lemma_triple_subset_invariance(
    s1: Seq<(u64, u64)>,
    s2: Seq<(u64, u64)>,
    c: Seq<u64>,
    q: u64,
)
    requires
        is_prime(q as nat),
        c.len() == 3,
        c[0] < q,
        s1.len() >= 3,
        s2.len() >= 3,
        forall|j: int| 0 <= j < 3 ==> (#[trigger] s1[j]).0 < q,
        forall|j: int| 0 <= j < 3 ==> (#[trigger] s2[j]).0 < q,
        s1[0].0 != s1[1].0 && s1[0].0 != s1[2].0 && s1[1].0 != s1[2].0,
        s2[0].0 != s2[1].0 && s2[0].0 != s2[2].0 && s2[1].0 != s2[2].0,
        forall|j: int|
            0 <= j < 3 ==> (#[trigger] s1[j]).1 as int == poly_eval(c, s1[j].0 as int) % (q as int),
        forall|j: int|
            0 <= j < 3 ==> (#[trigger] s2[j]).1 as int == poly_eval(c, s2[j].0 as int) % (q as int),
    ensures
        lag_sum(s1, 3, 3, q as int) == lag_sum(s2, 3, 3, q as int),
{
    lemma_round_trip_triple(s1, c, q);
    lemma_round_trip_triple(s2, c, q);
}

/// Subset invariance for a threshold of two: any two pairs of shares of
/// the same degree-one polynomial, each pair with distinct
/// x-coordinates, reconstruct the same value — the constant term.
pub proof fn lemma_pair_subset_invariance(
    s1: Seq<(u64, u64)>,
    s2: Seq<(u64, u64)>,
    c: Seq<u64>,
    q: u64,
)
    requires
        is_prime(q as nat),
        c.len() == 2,
        c[0] < q,
        s1.len() >= 2,
        s2.len() >= 2,
        s1[0].0 < q,
        s1[1].0 < q,
        s1[0].0 != s1[1].0,
        s2[0].0 < q,
        s2[1].0 < q,
        s2[0].0 != s2[1].0,
        s1[0].1 as int == poly_eval(c, s1[0].0 as int) % (q as int),
        s1[1].1 as int == poly_eval(c, s1[1].0 as int) % (q as int),
        s2[0].1 as int == poly_eval(c, s2[0].0 as int) % (q as int),
        s2[1].1 as int == poly_eval(c, s2[1].0 as int) % (q as int),
    ensures
        lag_sum(s1, 2, 2, q as int) == lag_sum(s2, 2, 2, q as int),
{
    lemma_round_trip_pair(s1, c, q);
    lemma_round_trip_pair(s2, c, q);
}

} // verus!
