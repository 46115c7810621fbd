//! Extended Euclidean algorithm and modular multiplicative inverse over
//! arbitrary-precision signed integers.
//!
//! `extended_gcd` runs the schoolbook extended-Euclidean recurrence on
//! `num_bigint::BigInt` values and returns the gcd together with both
//! final coefficient pairs; `mod_inverse` derives from it the canonical
//! inverse of `a` modulo `m`.  The recurrence itself is verified against
//! the mathematical model in [`euclid`]; the big-integer arithmetic is an
//! external collaborator, trusted through the wrappers in [`bigint`].

pub mod bigint;
pub mod euclid;

use vstd::prelude::*;
use vstd::math::abs;
use vstd::arithmetic::div_mod::lemma_mod_multiples_vanish;
use num_bigint::BigInt;
use crate::bigint::{
    bigint_value,
    bigint_from_i64,
    bigint_clone,
    bigint_add,
    bigint_sub,
    bigint_mul,
    bigint_div,
    bigint_eq,
    bigint_lt,
    bigint_is_zero,
};
use crate::euclid::{
    egcd,
    egcd_loop,
    coprime,
    lemma_bezout_identity,
    lemma_egcd_coefficient_bound,
    lemma_gcd_one_implies_coprime,
    lemma_coprime_iff_gcd_one,
    lemma_trunc_div_facts,
};

verus! {

/// The extended Euclidean algorithm.
///
/// Returns `(gcd, (s, t), (s2, t2))` where `gcd` is the final remainder of
/// the recurrence, `(s, t)` the final Bézout coefficients with
/// `gcd == s * a + t * b`, and `(s2, t2)` the second-to-last coefficient
/// pair.  The result is exactly the recurrence's raw output: no sign
/// normalization is applied, so `gcd` can be negative for negative inputs.
pub fn extended_gcd(a: BigInt, b: BigInt) -> (res: (BigInt, (BigInt, BigInt), (BigInt, BigInt)))
    ensures
        ({
            let (g, s, t, s2, t2) = egcd(bigint_value(a), bigint_value(b));
            bigint_value(res.0) == g
                && bigint_value((res.1).0) == s
                && bigint_value((res.1).1) == t
                && bigint_value((res.2).0) == s2
                && bigint_value((res.2).1) == t2
        }),
{
    let ghost a0 = bigint_value(a);
    let ghost b0 = bigint_value(b);
    let mut old_r = a;
    let mut r = b;
    let mut old_s = bigint_from_i64(1);
    let mut s = bigint_from_i64(0);
    let mut old_t = bigint_from_i64(0);
    let mut t = bigint_from_i64(1);
    while !bigint_is_zero(&r)
        invariant
            egcd_loop(
                bigint_value(old_r),
                bigint_value(r),
                bigint_value(old_s),
                bigint_value(s),
                bigint_value(old_t),
                bigint_value(t),
            ) == egcd(a0, b0),
        decreases abs(bigint_value(r)),
    {
        let quotient = bigint_div(&old_r, &r);
        proof {
            lemma_trunc_div_facts(bigint_value(old_r), bigint_value(r));
        }
        let qr = bigint_mul(&quotient, &r);
        let new_r = bigint_sub(&old_r, &qr);
        let qs = bigint_mul(&quotient, &s);
        let new_s = bigint_sub(&old_s, &qs);
        let qt = bigint_mul(&quotient, &t);
        let new_t = bigint_sub(&old_t, &qt);
        old_r = r;
        r = new_r;
        old_s = s;
        s = new_s;
        old_t = t;
        t = new_t;
    }
    (old_r, (old_s, old_t), (s, t))
}

/// The error returned by [`mod_inverse`] when no inverse exists.  It
/// carries the two offending values for diagnostics.
#[derive(Debug)]
pub struct NotCoprime {
    pub a: BigInt,
    pub m: BigInt,
}

/// The modular multiplicative inverse of `a` modulo `m`.
///
/// Runs [`extended_gcd`] on `(a, m)`; fails with [`NotCoprime`] exactly
/// when the recurrence's gcd is not one, and otherwise normalizes the `s`
/// coefficient into the canonical range with at most one addition of `m`.
/// For a non-negative `a` and positive `m` this succeeds if and only if
/// `a` and `m` are coprime, and the result `x` then satisfies
/// `0 <= x < m` and `(a * x) % m == 1 % m`.  For a negative `a` the raw
/// recurrence can return a gcd of minus one, in which case the call fails
/// even though the inputs are coprime; the first `ensures` clause pins the
/// behavior exactly for every input, positive modulus or not.
pub fn mod_inverse(a: BigInt, m: BigInt) -> (res: Result<BigInt, NotCoprime>)
    ensures
        ({
            let (g, s, t, s2, t2) = egcd(bigint_value(a), bigint_value(m));
            match res {
                Ok(x) => g == 1 && bigint_value(x) == (if s < 0 {
                    bigint_value(m) + s
                } else {
                    s
                }),
                Err(e) => g != 1 && bigint_value(e.a) == bigint_value(a) && bigint_value(e.m)
                    == bigint_value(m),
            }
        }),
        !coprime(bigint_value(a), bigint_value(m)) ==> res is Err,
        0 <= bigint_value(a) && 1 <= bigint_value(m) && coprime(bigint_value(a), bigint_value(m))
            ==> res is Ok,
        res matches Ok(x) ==> (0 <= bigint_value(a) && 1 <= bigint_value(m) ==> ({
            0 <= bigint_value(x) < bigint_value(m) && (bigint_value(a) * bigint_value(x))
                % bigint_value(m) == 1int % bigint_value(m)
        })),
{
    let ghost a0 = bigint_value(a);
    let ghost m0 = bigint_value(m);
    let ghost (g0, s0, t0, s20, t20) = egcd(a0, m0);
    let aa = bigint_clone(&a);
    let mm = bigint_clone(&m);
    let (gcd, coeffs, _prev) = extended_gcd(aa, mm);
    let (s, _t) = coeffs;
    let one = bigint_from_i64(1);
    if !bigint_eq(&gcd, &one) {
        proof {
            if 0 <= a0 && 1 <= m0 && coprime(a0, m0) {
                lemma_coprime_iff_gcd_one(a0, m0);
            }
        }
        return Err(NotCoprime { a, m });
    }
    proof {
        lemma_gcd_one_implies_coprime(a0, m0);
        if 0 <= a0 && 1 <= m0 {
            lemma_bezout_identity(a0, m0);
            lemma_egcd_coefficient_bound(a0, m0);
            assert(abs(s20) as int == m0) by (nonlinear_arith)
                requires
                    g0 * (abs(s20) as int) == m0,
                    g0 == 1,
            ;
        }
    }
    let zero = bigint_from_i64(0);
    if bigint_lt(&s, &zero) {
        let x = bigint_add(&m, &s);
        proof {
            if 0 <= a0 && 1 <= m0 {
                assert(a0 * bigint_value(x) == m0 * (a0 - t0) + 1) by (nonlinear_arith)
                    requires
                        1 == s0 * a0 + t0 * m0,
                        bigint_value(x) == m0 + s0,
                ;
                lemma_mod_multiples_vanish(a0 - t0, 1, m0);
            }
        }
        Ok(x)
    } else {
        proof {
            if 0 <= a0 && 1 <= m0 {
                assert(a0 * s0 == m0 * (0 - t0) + 1) by (nonlinear_arith)
                    requires
                        1 == s0 * a0 + t0 * m0,
                ;
                lemma_mod_multiples_vanish(0 - t0, 1, m0);
            }
        }
        Ok(s)
    }
}

} // verus!
