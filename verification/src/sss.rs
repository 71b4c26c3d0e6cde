//! Plain Shamir secret sharing over a fixed prime field.
//!
//! The secret is the constant term of a random polynomial of degree
//! `threshold - 1`; a share is the polynomial's value at one of the
//! points `1, 2, ..., num_shares`; any `threshold` shares recover the
//! secret by Lagrange interpolation at zero.

use vstd::prelude::*;

use crate::lagrange::{denoms_invertible, interpolate_at_zero, lag_sum};
use crate::poly::poly_eval;
use crate::rng::rand_range;

verus! {

/// The prime modulus of the share field.  Secrets, coefficients and
/// share values all live in `[0, PRIME)`.
pub const PRIME: u64 = 2147483647;

/// The ways a sharing or reconstruction request can be malformed.
#[derive(Clone, Copy, Debug, PartialEq, Eq)]
pub enum ShamirError {
    /// A threshold below 2 offers no secrecy.
    InvalidThreshold,
    /// Fewer shares than the threshold could never be reconstructed.
    InvalidShareCount,
    /// Reconstruction was asked of fewer shares than the threshold.
    InsufficientShares,
    /// A modular inverse was requested of a value that shares a factor
    /// with the modulus, e.g. because two shares carry the same x.
    NoInverseExists,
}

/// A well-formed coefficient vector for `secret`: the constant term is
/// the secret and every higher coefficient was drawn from `[1, PRIME)`.
pub open spec fn coeffs_wf(c: Seq<u64>, secret: u64, threshold: int) -> bool {
    &&& c.len() == threshold
    &&& c[0] == secret
    &&& forall|i: int| 1 <= i < threshold ==> 1 <= #[trigger] c[i] < PRIME
}

/// The shares issued for the coefficient vector `c`: the k-th share is
/// the polynomial's value at `x = k + 1`.
pub open spec fn shares_of(shares: Seq<(u64, u64)>, c: Seq<u64>) -> bool {
    forall|k: int|
        0 <= k < shares.len() ==> #[trigger] shares[k] == ((k + 1) as u64, (poly_eval(c, k + 1) % (
        PRIME as int)) as u64)
}

/// Draws the polynomial that hides `secret`: the constant term is the
/// secret itself and the remaining `threshold - 1` coefficients are
/// uniform over `[1, PRIME)`.
///
/// Rejects thresholds below 2, which would give no secrecy.
pub fn generate_polynomial(secret: u64, threshold: usize) -> (res: Result<Vec<u64>, ShamirError>)
    requires
        secret < PRIME,
    ensures
        match res {
            Ok(c) => threshold >= 2 && coeffs_wf(c@, secret, threshold as int),
            Err(e) => e == ShamirError::InvalidThreshold && threshold < 2,
        },
{
    if threshold < 2 {
        return Err(ShamirError::InvalidThreshold);
    }
    let mut coeffs: Vec<u64> = Vec::new();
    coeffs.push(secret);
    let mut i: usize = 1;
    while i < threshold
        invariant
            1 <= i <= threshold,
            coeffs@.len() == i,
            coeffs@[0] == secret,
            forall|k: int| 1 <= k < i ==> 1 <= #[trigger] coeffs@[k] < PRIME,
        decreases threshold - i,
    {
        coeffs.push(rand_range(1, PRIME));
        i = i + 1;
    }
    Ok(coeffs)
}

/// Evaluates the polynomial with coefficients `coeffs` (constant term
/// first) at `x`, modulo the field prime, by Horner's rule.
pub fn evaluate_polynomial(coeffs: &[u64], x: u64) -> (r: u64)
    ensures
        r as int == poly_eval(coeffs@, x as int) % (PRIME as int),
        r < PRIME,
{
    crate::poly::eval_mod(coeffs, x, PRIME)
}

/// Splits `secret` into `num_shares` shares at the points
/// `1, ..., num_shares`, any `threshold` of which reconstruct it.
///
/// Rejects a share count below the threshold, then a threshold below 2.
pub fn generate_shares(secret: u64, threshold: usize, num_shares: usize) -> (res: Result<
    Vec<(u64, u64)>,
    ShamirError,
>)
    requires
        secret < PRIME,
    ensures
        match res {
            Ok(shares) => threshold >= 2 && num_shares >= threshold && shares@.len() == num_shares
                && (exists|c: Seq<u64>|
                #[trigger] coeffs_wf(c, secret, threshold as int) && shares_of(shares@, c)),
            Err(e) => (e == ShamirError::InvalidShareCount && num_shares < threshold) || (e
                == ShamirError::InvalidThreshold && num_shares >= threshold && threshold < 2),
        },
{
    if num_shares < threshold {
        return Err(ShamirError::InvalidShareCount);
    }
    let coeffs = match generate_polynomial(secret, threshold) {
        Ok(c) => c,
        Err(e) => {
            return Err(e);
        },
    };
    let mut shares: Vec<(u64, u64)> = Vec::new();
    let mut k: usize = 0;
    while k < num_shares
        invariant
            k <= num_shares,
            num_shares <= usize::MAX,
            shares@.len() == k,
            coeffs_wf(coeffs@, secret, threshold as int),
            threshold >= 2,
            forall|i: int|
                0 <= i < k ==> #[trigger] shares@[i] == ((i + 1) as u64, (poly_eval(coeffs@, i + 1)
                    % (PRIME as int)) as u64),
        decreases num_shares - k,
    {
        let x = (k as u64) + 1;
        let y = evaluate_polynomial(coeffs.as_slice(), x);
        shares.push((x, y));
        k = k + 1;
    }
    proof {
        let c = coeffs@;
        assert(coeffs_wf(c, secret, threshold as int) && shares_of(shares@, c));
    }
    Ok(shares)
}

/// Recovers the secret from the first `threshold` of the given shares
/// by Lagrange interpolation at zero.
///
/// Fails with `InsufficientShares` when fewer than `threshold` shares
/// are supplied, and with `NoInverseExists` when a basis denominator is
/// not invertible — over this prime field, when two of the selected
/// shares carry the same x-coordinate.
pub fn reconstruct_secret(shares: &[(u64, u64)], threshold: usize) -> (res: Result<
    u64,
    ShamirError,
>)
    requires
        forall|m: int|
            0 <= m < threshold && m < shares@.len() ==> (#[trigger] shares@[m]).0 < PRIME,
    ensures
        match res {
            Ok(s) => shares@.len() >= threshold && s < PRIME && denoms_invertible(shares@,
                threshold as int, PRIME as int) && s as int == lag_sum(shares@, threshold as int,
                threshold as int, PRIME as int),
            Err(e) => (e == ShamirError::InsufficientShares && shares@.len() < threshold) || (e
                == ShamirError::NoInverseExists && shares@.len() >= threshold
                && !denoms_invertible(shares@, threshold as int, PRIME as int)),
        },
{
    if shares.len() < threshold {
        return Err(ShamirError::InsufficientShares);
    }
    interpolate_at_zero(shares, threshold, PRIME)
}

} // verus!
