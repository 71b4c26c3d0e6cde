//! Feldman verifiable secret sharing.
//!
//! Shamir sharing over a prime field of size `q`, extended with one
//! discrete-log commitment `g^a_i mod p` per coefficient.  A holder of
//! the share `(x, y)` accepts it exactly when
//! `g^y == prod_i commitment_i^(x^i mod q) (mod p)`; with a generator
//! of order `q` this holds for every honestly dealt share and for no
//! share whose value was altered.

use vstd::arithmetic::div_mod::*;
use vstd::arithmetic::mul::*;
use vstd::arithmetic::power::*;
use vstd::prelude::*;

use crate::field::{
    is_prime, lemma_add_cong, lemma_pow_distinct_below_order, lemma_pow_mod_cycle,
    lemma_pow_nonneg, mod_pow,
};
use crate::lagrange::{denoms_invertible, interpolate_at_zero, lag_sum};
use crate::poly::{lemma_poly_eval_take_succ, poly_eval};
use crate::rng::rand_range;
use crate::sss::ShamirError;

verus! {

/// The demonstration threshold: how many shares reconstruction needs.
pub const THRESHOLD: usize = 3;

/// The demonstration share count issued per sharing.
pub const SHARES_COUNT: usize = 5;

/// The parameters of one sharing session: the prime field of size `q`
/// that polynomial arithmetic lives in, and the commitment group, the
/// powers of `g` modulo `p`.
pub struct VssParams {
    /// The prime modulus of the share field.
    pub q: u64,
    /// The modulus of the commitment group.
    pub p: u64,
    /// The generator whose powers form the commitments.
    pub g: u64,
}

impl VssParams {
    /// A usable parameter set: `q` is prime, and `g` generates a
    /// subgroup of order dividing `q` modulo `p`, so that exponents can
    /// soundly be reduced modulo `q`.
    pub open spec fn valid(self) -> bool {
        &&& is_prime(self.q as nat)
        &&& self.p >= 2
        &&& 1 < self.g < self.p
        &&& pow(self.g as int, self.q as nat) % (self.p as int) == 1
    }

    /// Validates a candidate parameter set, accepting it exactly when
    /// `q` is prime and `g` is a nontrivial element of order dividing
    /// `q` modulo `p`.
    pub fn new(q: u64, p: u64, g: u64) -> (res: Option<VssParams>)
        ensures
            match res {
                Some(ps) => ps.q == q && ps.p == p && ps.g == g && ps.valid(),
                None => !(VssParams { q, p, g }).valid(),
            },
    {
        if !check_prime(q) {
            return None;
        }
        if p < 2 || g <= 1 || g >= p {
            return None;
        }
        if mod_pow(g, q, p) != 1 {
            return None;
        }
        Some(VssParams { q, p, g })
    }
}

/// Trial division: decides primality of `n`.
fn check_prime(n: u64) -> (b: bool)
    ensures
        b == is_prime(n as nat),
{
    if n < 2 {
        return false;
    }
    let mut d: u64 = 2;
    while d < n
        invariant
            2 <= d <= n,
            forall|k: nat| 1 < k < d ==> #[trigger] ((n as nat) % k) != 0,
        decreases n - d,
    {
        if n % d == 0 {
            assert((n as nat) % (d as nat) == 0);
            return false;
        }
        d = d + 1;
    }
    true
}

/// A well-formed coefficient vector for `secret` over the field of size
/// `q`: the constant term is the secret and every higher coefficient
/// lies in `[0, q)`.
pub open spec fn vss_coeffs_wf(c: Seq<u64>, secret: u64, threshold: int, q: u64) -> bool {
    &&& c.len() == threshold
    &&& c[0] == secret
    &&& forall|i: int| 0 <= i < threshold ==> #[trigger] c[i] < q
}

/// Draws the polynomial that hides `secret`: the constant term is the
/// secret and the remaining `threshold - 1` coefficients are uniform
/// over `[0, q)`.
pub fn generate_polynomial(secret: u64, threshold: usize, params: &VssParams) -> (res: Result<
    Vec<u64>,
    ShamirError,
>)
    requires
        params.q >= 2,
        secret < params.q,
    ensures
        match res {
            Ok(c) => threshold >= 2 && vss_coeffs_wf(c@, secret, threshold as int, params.q),
            Err(e) => e == ShamirError::InvalidThreshold && threshold < 2,
        },
{
    if threshold < 2 {
        return Err(ShamirError::InvalidThreshold);
    }
    let mut coeffs: Vec<u64> = Vec::new();
    coeffs.push(secret);
    let mut i: usize = 1;
    while i < threshold
        invariant
            params.q >= 2,
            secret < params.q,
            1 <= i <= threshold,
            coeffs@.len() == i,
            coeffs@[0] == secret,
            forall|k: int| 0 <= k < i ==> #[trigger] coeffs@[k] < params.q,
        decreases threshold - i,
    {
        coeffs.push(rand_range(0, params.q));
        i = i + 1;
    }
    Ok(coeffs)
}

/// Issues one share per point `1, ..., num_shares`, each the value of
/// the committed polynomial there, computed as the explicit power sum
/// `sum_i c_i * x^i mod q`.
pub fn generate_shares(coeffs: &Vec<u64>, num_shares: usize, params: &VssParams) -> (shares: Vec<
    (u64, u64),
>)
    requires
        params.q >= 2,
    ensures
        shares@.len() == num_shares,
        forall|k: int|
            0 <= k < num_shares ==> #[trigger] shares@[k] == ((k + 1) as u64, (poly_eval(coeffs@, k
                + 1) % (params.q as int)) as u64),
{
    let q = params.q;
    let mut shares: Vec<(u64, u64)> = Vec::new();
    let mut k: usize = 0;
    while k < num_shares
        invariant
            q == params.q,
            q >= 2,
            k <= num_shares,
            shares@.len() == k,
            forall|i: int|
                0 <= i < k ==> #[trigger] shares@[i] == ((i + 1) as u64, (poly_eval(coeffs@, i + 1)
                    % (q as int)) as u64),
        decreases num_shares - k,
    {
        let x = (k as u64) + 1;
        let y = eval_power_sum(coeffs, x, q);
        shares.push((x, y));
        k = k + 1;
    }
    shares
}

/// Evaluates `f(x) mod q` as the power sum `sum_i c_i * x^i`, one
/// modular exponentiation per term.
fn eval_power_sum(coeffs: &Vec<u64>, x: u64, q: u64) -> (r: u64)
    requires
        q >= 1,
    ensures
        r as int == poly_eval(coeffs@, x as int) % (q as int),
        r < q,
{
    let mut fx: u64 = 0;
    let mut i: usize = 0;
    proof {
        assert(coeffs@.take(0) =~= Seq::<u64>::empty());
        lemma_small_mod(0nat, q as nat);
    }
    while i < coeffs.len()
        invariant
            q >= 1,
            i <= coeffs@.len(),
            fx < q,
            fx as int == poly_eval(coeffs@.take(i as int), x as int) % (q as int),
        decreases coeffs@.len() - i,
    {
        let c_i = coeffs[i];
        let power = mod_pow(x, i as u64, q);
        proof {
            lemma_mul_upper_bound(c_i as int, u64::MAX as int, power as int, u64::MAX as int);
        }
        let term = ((c_i as u128 * power as u128) % (q as u128)) as u64;
        let updated = ((fx as u128 + term as u128) % (q as u128)) as u64;
        proof {
            let a = poly_eval(coeffs@.take(i as int), x as int);
            let b = (c_i as int) * pow(x as int, i as nat);
            lemma_poly_eval_take_succ(coeffs@, i as int, x as int);
            assert(term as int == b % (q as int)) by {
                lemma_mul_mod_noop_right(c_i as int, pow(x as int, i as nat), q as int);
            }
            assert((a % (q as int) + b % (q as int)) % (q as int) == (a + b) % (q as int)) by {
                lemma_add_mod_noop(a, b, q as int);
            }
        }
        fx = updated;
        i = i + 1;
    }
    proof {
        assert(coeffs@.take(coeffs@.len() as int) =~= coeffs@);
    }
    fx
}

/// One commitment per coefficient: `commitment_i = g^(c_i) mod p`.
/// Deterministic and total: commitments are public values.
pub fn generate_commitments(coeffs: &Vec<u64>, params: &VssParams) -> (cs: Vec<u64>)
    requires
        params.p >= 2,
    ensures
        cs@.len() == coeffs@.len(),
        forall|i: int|
            0 <= i < coeffs@.len() ==> #[trigger] cs@[i] as int == pow(params.g as int,
                coeffs@[i] as nat) % (params.p as int),
        forall|i: int| 0 <= i < coeffs@.len() ==> #[trigger] cs@[i] < params.p,
{
    let mut cs: Vec<u64> = Vec::new();
    let mut i: usize = 0;
    while i < coeffs.len()
        invariant
            params.p >= 2,
            i <= coeffs@.len(),
            cs@.len() == i,
            forall|k: int|
                0 <= k < i ==> #[trigger] cs@[k] as int == pow(params.g as int, coeffs@[k] as nat)
                    % (params.p as int),
            forall|k: int| 0 <= k < i ==> #[trigger] cs@[k] < params.p,
        decreases coeffs@.len() - i,
    {
        cs.push(mod_pow(params.g, coeffs[i], params.p));
        i = i + 1;
    }
    cs
}

/// The product `prod_{i < k} commitment_i^(x^i mod q) mod p`, the
/// right-hand side of the Feldman check built from the first `k`
/// commitments.
pub open spec fn commit_prod(cs: Seq<u64>, x: int, k: int, q: int, p: int) -> int
    decreases k,
{
    if k <= 0 {
        1
    } else {
        (commit_prod(cs, x, k - 1, q, p) * (pow(cs[k - 1] as int, (pow(x, (k - 1) as nat)
            % q) as nat) % p)) % p
    }
}

/// The Feldman acceptance predicate for the share `(x, y)` against the
/// commitment set `cs`: `g^y` equals the commitment product at `x`.
pub open spec fn share_checks(x: u64, y: u64, cs: Seq<u64>, q: int, p: int, g: int) -> bool {
    pow(g, y as nat) % p == commit_prod(cs, x as int, cs.len() as int, q, p)
}

/// Checks one share against the dealer's commitments.
///
/// Never fails: a tampered or mismatched share is a normal outcome,
/// reported as `false`.  The exponent `x^i` is reduced modulo `q`, the
/// polynomial's field, while the products live modulo `p`.
pub fn verify_share(share: (u64, u64), commitments: &Vec<u64>, params: &VssParams) -> (ok: bool)
    requires
        params.q >= 2,
        params.p >= 2,
    ensures
        ok == share_checks(share.0, share.1, commitments@, params.q as int, params.p as int,
            params.g as int),
{
    let (x, y) = share;
    let lhs = mod_pow(params.g, y, params.p);
    let mut rhs: u64 = 1;
    let mut j: usize = 0;
    while j < commitments.len()
        invariant
            params.q >= 2,
            params.p >= 2,
            j <= commitments@.len(),
            rhs < params.p,
            rhs as int == commit_prod(commitments@, x as int, j as int, params.q as int,
                params.p as int),
        decreases commitments@.len() - j,
    {
        let power = mod_pow(x, j as u64, params.q);
        let term = mod_pow(commitments[j], power, params.p);
        proof {
            lemma_mul_upper_bound(rhs as int, u64::MAX as int, term as int, u64::MAX as int);
        }
        rhs = ((rhs as u128 * term as u128) % (params.p as u128)) as u64;
        j = j + 1;
    }
    lhs == rhs
}

/// The exponent behind the commitment product: `sum_{i < k} c_i * (x^i
/// mod q)`, which differs from `f(x)` only by multiples of `q`.
pub open spec fn exp_sum(c: Seq<u64>, x: int, k: int, q: int) -> int
    decreases k,
{
    if k <= 0 {
        0
    } else {
        exp_sum(c, x, k - 1, q) + c[k - 1] * (pow(x, (k - 1) as nat) % q)
    }
}

proof fn lemma_exp_sum_nonneg(c: Seq<u64>, x: int, k: int, q: int)
    requires
        x >= 0,
        q >= 1,
    ensures
        exp_sum(c, x, k, q) >= 0,
    decreases k,
{
    if k > 0 {
        lemma_exp_sum_nonneg(c, x, k - 1, q);
        lemma_pow_nonneg(x, (k - 1) as nat);
        lemma_mod_bound(pow(x, (k - 1) as nat), q);
        lemma_mul_nonnegative(c[k - 1] as int, pow(x, (k - 1) as nat) % q);
    }
}

/// The commitment product is `g` raised to the exponent sum: each
/// factor `(g^(c_i))^(x^i mod q)` contributes `c_i * (x^i mod q)` to
/// the exponent.
proof fn lemma_commit_prod_is_pow(
    c: Seq<u64>,
    cs: Seq<u64>,
    x: int,
    k: int,
    q: int,
    p: int,
    g: int,
)
    requires
        p >= 2,
        q >= 1,
        x >= 0,
        g >= 0,
        0 <= k <= c.len(),
        cs.len() == c.len(),
        forall|i: int|
            0 <= i < c.len() ==> #[trigger] cs[i] as int == pow(g, c[i] as nat) % p,
    ensures
        commit_prod(cs, x, k, q, p) == pow(g, exp_sum(c, x, k, q) as nat) % p,
    decreases k,
{
    if k <= 0 {
        assert(pow(g, 0) == 1) by {
            lemma_pow0(g);
        }
        assert(1int % p == 1) by {
            lemma_small_mod(1nat, p as nat);
        }
    } else {
        lemma_commit_prod_is_pow(c, cs, x, k - 1, q, p, g);
        lemma_exp_sum_nonneg(c, x, k - 1, q);
        lemma_pow_nonneg(x, (k - 1) as nat);
        lemma_mod_bound(pow(x, (k - 1) as nat), q);
        let s = exp_sum(c, x, k - 1, q) as nat;
        let ci = c[k - 1] as nat;
        let e = (pow(x, (k - 1) as nat) % q) as nat;
        assert(pow(cs[k - 1] as int, e) % p == pow(g, (ci * e) as nat) % p) by {
            lemma_pow_mod_noop(pow(g, ci), e, p);
            lemma_pow_multiplies(g, ci, e);
        }
        assert(commit_prod(cs, x, k, q, p) == ((pow(g, s) % p) * (pow(g, (ci * e) as nat) % p))
            % p);
        assert(((pow(g, s) % p) * (pow(g, (ci * e) as nat) % p)) % p == (pow(g, s) * pow(g, (ci
            * e) as nat)) % p) by {
            lemma_mul_mod_noop(pow(g, s), pow(g, (ci * e) as nat), p);
        }
        assert(pow(g, s) * pow(g, (ci * e) as nat) == pow(g, (s + ci * e) as nat)) by {
            lemma_pow_adds(g, s, (ci * e) as nat);
        }
        assert(exp_sum(c, x, k, q) == s + ci * e);
    }
}

/// The polynomial's value and the exponent sum agree modulo `q`.
proof fn lemma_exp_sum_matches_poly(c: Seq<u64>, x: int, k: int, q: int)
    requires
        q >= 1,
        x >= 0,
        0 <= k <= c.len(),
    ensures
        poly_eval(c.take(k), x) % q == exp_sum(c, x, k, q) % q,
    decreases k,
{
    if k <= 0 {
        assert(c.take(0) =~= Seq::<u64>::empty());
    } else {
        lemma_exp_sum_matches_poly(c, x, k - 1, q);
        lemma_poly_eval_take_succ(c, k - 1, x);
        let a = poly_eval(c.take(k - 1), x);
        let b = exp_sum(c, x, k - 1, q);
        let pw = pow(x, (k - 1) as nat);
        assert((c[k - 1] * pw) % q == (c[k - 1] * (pw % q)) % q) by {
            lemma_mul_mod_noop_right(c[k - 1] as int, pw, q);
        }
        lemma_add_cong(a, b, c[k - 1] * pw, c[k - 1] * (pw % q), q);
    }
}

/// Commitment soundness: every honestly dealt share passes the Feldman
/// check against the commitments of the polynomial it came from.
///
/// The share value `y = f(x) mod q` and the commitment exponents agree
/// modulo `q`, and since `g` has order dividing `q` modulo `p`, the two
/// sides of the check are the same power of `g`.
pub proof fn lemma_honest_share_verifies(
    c: Seq<u64>,
    cs: Seq<u64>,
    x: u64,
    y: u64,
    params: VssParams,
)
    requires
        params.valid(),
        y as int == poly_eval(c, x as int) % (params.q as int),
        cs.len() == c.len(),
        forall|i: int|
            0 <= i < c.len() ==> #[trigger] cs[i] as int == pow(params.g as int, c[i] as nat) % (
            params.p as int),
    ensures
        share_checks(x, y, cs, params.q as int, params.p as int, params.g as int),
{
    let q = params.q as int;
    let p = params.p as int;
    let g = params.g as int;
    let k = c.len() as int;
    lemma_commit_prod_is_pow(c, cs, x as int, k, q, p, g);
    lemma_exp_sum_matches_poly(c, x as int, k, q);
    assert(c.take(k) =~= c);
    let s = exp_sum(c, x as int, k, q);
    lemma_exp_sum_nonneg(c, x as int, k, q);
    assert(y as int == s % q);
    lemma_pow_mod_cycle(g, params.q as nat, p, s as nat);
    assert((s as nat) % (params.q as nat) == y as nat);
}

/// Commitment completeness: a share whose value was altered to any
/// other field element — `y + 1 mod q` included — fails the Feldman
/// check, because distinct exponents below the order of `g` give
/// distinct powers.
pub proof fn lemma_tampered_share_rejected(
    c: Seq<u64>,
    cs: Seq<u64>,
    x: u64,
    y: u64,
    y2: u64,
    params: VssParams,
)
    requires
        params.valid(),
        y as int == poly_eval(c, x as int) % (params.q as int),
        cs.len() == c.len(),
        forall|i: int|
            0 <= i < c.len() ==> #[trigger] cs[i] as int == pow(params.g as int, c[i] as nat) % (
            params.p as int),
        y2 < params.q,
        y2 != y,
    ensures
        !share_checks(x, y2, cs, params.q as int, params.p as int, params.g as int),
{
    let q = params.q as int;
    let p = params.p as int;
    let g = params.g as int;
    lemma_honest_share_verifies(c, cs, x, y, params);
    assert(y < params.q) by {
        lemma_mod_bound(poly_eval(c, x as int), q);
    }
    if share_checks(x, y2, cs, q, p, g) {
        assert(pow(g, y as nat) % p == pow(g, y2 as nat) % p);
        if y < y2 {
            lemma_pow_distinct_below_order(g, params.q as nat, p, y as nat, y2 as nat);
        } else {
            lemma_pow_distinct_below_order(g, params.q as nat, p, y2 as nat, y as nat);
        }
    }
}

/// Recovers the secret from the first `threshold` of the given shares
/// by Lagrange interpolation at zero, over the session's field.
///
/// Fails with `InsufficientShares` when too few shares are supplied,
/// and with `NoInverseExists` when two selected shares carry the same
/// x-coordinate.
pub fn reconstruct_secret(shares: &[(u64, u64)], threshold: usize, params: &VssParams) -> (res:
    Result<u64, ShamirError>)
    requires
        params.q >= 2,
        forall|m: int|
            0 <= m < threshold && m < shares@.len() ==> (#[trigger] shares@[m]).0 < params.q,
    ensures
        match res {
            Ok(s) => shares@.len() >= threshold && s < params.q && denoms_invertible(shares@,
                threshold as int, params.q as int) && s as int == lag_sum(shares@,
                threshold as int, threshold as int, params.q as int),
            Err(e) => (e == ShamirError::InsufficientShares && shares@.len() < threshold) || (e
                == ShamirError::NoInverseExists && shares@.len() >= threshold
                && !denoms_invertible(shares@, threshold as int, params.q as int)),
        },
{
    if shares.len() < threshold {
        return Err(ShamirError::InsufficientShares);
    }
    interpolate_at_zero(shares, threshold, params.q)
}

} // verus!
