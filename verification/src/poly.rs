//! Polynomials over the share field: the evaluation function that both
//! sharing schemes are specified against, and a verified Horner-rule
//! evaluator.

use vstd::arithmetic::div_mod::*;
use vstd::arithmetic::mul::*;
use vstd::arithmetic::power::*;
use vstd::prelude::*;

verus! {

/// The value of the polynomial with coefficients `c` (constant term
/// first) at the point `x`, over the integers.
pub open spec fn poly_eval(c: Seq<u64>, x: int) -> int
    decreases c.len(),
{
    if c.len() == 0 {
        0
    } else {
        c[0] + x * poly_eval(c.drop_first(), x)
    }
}

/// Appending a coefficient appends the monomial `a * x^deg`.
pub proof fn lemma_poly_eval_push(c: Seq<u64>, a: u64, x: int)
    ensures
        poly_eval(c.push(a), x) == poly_eval(c, x) + a * pow(x, c.len()),
    decreases c.len(),
{
    if c.len() == 0 {
        assert(c.push(a).drop_first() =~= Seq::<u64>::empty());
        assert(poly_eval(Seq::<u64>::empty(), x) == 0);
        assert(c.push(a)[0] == a);
        lemma_pow0(x);
    } else {
        assert(c.push(a).drop_first() =~= c.drop_first().push(a));
        lemma_poly_eval_push(c.drop_first(), a, x);
        let p = poly_eval(c.drop_first(), x);
        let k = (c.len() - 1) as nat;
        assert(pow(x, c.len()) == x * pow(x, k)) by {
            reveal(pow);
        }
        assert(x * (p + a * pow(x, k)) == x * p + a * (x * pow(x, k))) by (nonlinear_arith);
    }
}

/// On the first `k` coefficients, one more coefficient adds one more
/// monomial.
pub proof fn lemma_poly_eval_take_succ(c: Seq<u64>, k: int, x: int)
    requires
        0 <= k < c.len(),
    ensures
        poly_eval(c.take(k + 1), x) == poly_eval(c.take(k), x) + c[k] * pow(x, k as nat),
{
    assert(c.take(k + 1) =~= c.take(k).push(c[k]));
    lemma_poly_eval_push(c.take(k), c[k], x);
}

/// Horner-rule evaluation of `f(x) mod q`, coefficients constant term
/// first, processed from the highest degree down.
pub fn eval_mod(coeffs: &[u64], x: u64, q: u64) -> (r: u64)
    requires
        q >= 1,
    ensures
        r as int == poly_eval(coeffs@, x as int) % (q as int),
        r < q,
{
    let mut result: u64 = 0;
    let mut j = coeffs.len();
    proof {
        assert(coeffs@.subrange(j as int, coeffs@.len() as int) =~= Seq::<u64>::empty());
        lemma_small_mod(0nat, q as nat);
    }
    while j > 0
        invariant
            q >= 1,
            j <= coeffs@.len(),
            result < q,
            result as int == poly_eval(coeffs@.subrange(j as int, coeffs@.len() as int), x as int)
                % (q as int),
        decreases j,
    {
        j = j - 1;
        let ghost tail = coeffs@.subrange(j as int + 1, coeffs@.len() as int);
        let ghost whole = coeffs@.subrange(j as int, coeffs@.len() as int);
        let c = coeffs[j];
        proof {
            lemma_mul_upper_bound(result as int, u64::MAX as int, x as int, u64::MAX as int);
        }
        let wide = (result as u128 * x as u128 + c as u128) % (q as u128);
        proof {
            lemma_step_matches(poly_eval(tail, x as int), result as int, c as int, x as int,
                q as int);
            assert(whole.drop_first() =~= tail);
            assert(whole[0] == c);
        }
        result = wide as u64;
    }
    proof {
        assert(coeffs@.subrange(0, coeffs@.len() as int) =~= coeffs@);
    }
    result
}

/// One Horner step folds the next coefficient in without changing the
/// value modulo `q`.
proof fn lemma_step_matches(p: int, r: int, c: int, x: int, q: int)
    requires
        q >= 1,
        0 <= r < q,
        r == p % q,
    ensures
        (r * x + c) % q == (c + x * p) % q,
{
    assert((r * x) % q == (x * p) % q) by {
        lemma_mul_mod_noop_left(p, x, q);
        lemma_mul_is_commutative(p % q, x);
        lemma_mul_is_commutative(p, x);
    }
    assert((r * x + c) % q == (x * p + c) % q) by {
        lemma_add_mod_noop(r * x, c, q);
        lemma_add_mod_noop(x * p, c, q);
    }
}

} // verus!
