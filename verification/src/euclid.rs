//! Mathematical model of the extended Euclidean recurrence.
//!
//! Everything here is ghost: `egcd` defines, as a pure function on
//! mathematical integers, exactly what the executable algorithm computes,
//! and the lemmas establish the classical properties of that recurrence
//! (the Bézout identity, divisibility, and the coefficient bound that
//! makes the modular-inverse normalization correct).

use vstd::prelude::*;
use vstd::arithmetic::div_mod::{
    lemma_fundamental_div_mod,
    lemma_mod_bound,
    lemma_div_pos_is_pos,
    lemma_div_is_ordered,
    lemma_div_by_self,
};
use vstd::math::abs;

verus! {

/// Integer division truncating toward zero, the convention used by
/// arbitrary-precision integer libraries (and by Rust's primitive `/`).
/// Verus's own `/` on `int` is Euclidean, so the two differ on negative
/// dividends; this function states truncation in terms of the magnitudes.
pub open spec fn trunc_div(a: int, b: int) -> int {
    if (0 <= a) == (0 <= b) {
        abs(a) as int / abs(b) as int
    } else {
        -(abs(a) as int / abs(b) as int)
    }
}

/// The remainder left by truncating division.
pub open spec fn trunc_rem(a: int, b: int) -> int {
    a - trunc_div(a, b) * b
}

/// Basic facts about truncating division: the remainder is smaller in
/// magnitude than the divisor, carries the sign of the dividend, and on
/// non-negative dividends with positive divisors truncating division
/// coincides with Euclidean division.
pub proof fn lemma_trunc_div_facts(a: int, b: int)
    requires
        b != 0,
    ensures
        abs(trunc_rem(a, b)) < abs(b),
        0 <= a ==> 0 <= trunc_rem(a, b),
        a < 0 ==> trunc_rem(a, b) <= 0,
        0 <= a && 0 < b ==> trunc_div(a, b) == a / b && trunc_rem(a, b) == a % b,
{
    let aa = abs(a) as int;
    let bb = abs(b) as int;
    lemma_fundamental_div_mod(aa, bb);
    lemma_mod_bound(aa, bb);
    lemma_div_pos_is_pos(aa, bb);
    let q = aa / bb;
    let rr = aa % bb;
    let td = trunc_div(a, b);
    if 0 <= a {
        if 0 < b {
            assert(td == q);
            assert(a - td * b == rr) by (nonlinear_arith)
                requires
                    td == q,
                    a == aa,
                    b == bb,
                    aa == bb * q + rr,
            ;
        } else {
            assert(td == -q);
            assert(a - td * b == rr) by (nonlinear_arith)
                requires
                    td == -q,
                    a == aa,
                    b == -bb,
                    aa == bb * q + rr,
            ;
        }
    } else {
        if 0 < b {
            assert(td == -q);
            assert(a - td * b == -rr) by (nonlinear_arith)
                requires
                    td == -q,
                    a == -aa,
                    b == bb,
                    aa == bb * q + rr,
            ;
        } else {
            assert(td == q);
            assert(a - td * b == -rr) by (nonlinear_arith)
                requires
                    td == q,
                    a == -aa,
                    b == -bb,
                    aa == bb * q + rr,
            ;
        }
    }
}

/// One run of the extended Euclidean recurrence, written as a recursion on
/// its six-variable state.  The state mirrors the three parallel tracks of
/// the algorithm: the remainders `(old_r, r)` and the two coefficient
/// tracks `(old_s, s)` and `(old_t, t)`.  The result is the tuple
/// `(gcd, s, t, s2, t2)`: the final remainder, the final Bézout
/// coefficients, and the second-to-last pair produced by the recurrence.
pub open spec fn egcd_loop(
    old_r: int,
    r: int,
    old_s: int,
    s: int,
    old_t: int,
    t: int,
) -> (int, int, int, int, int)
    decreases abs(r),
    via egcd_loop_decreases
{
    if r == 0 {
        (old_r, old_s, old_t, s, t)
    } else {
        let q = trunc_div(old_r, r);
        egcd_loop(r, old_r - q * r, s, old_s - q * s, t, old_t - q * t)
    }
}

#[via_fn]
proof fn egcd_loop_decreases(old_r: int, r: int, old_s: int, s: int, old_t: int, t: int) {
    if r != 0 {
        lemma_trunc_div_facts(old_r, r);
        assert(old_r - trunc_div(old_r, r) * r == trunc_rem(old_r, r));
    }
}

/// What `extended_gcd(a, b)` computes, as a function on mathematical
/// integers: the recurrence started from remainders `(a, b)` and the
/// identity coefficient pairs `(1, 0)` and `(0, 1)`.
pub open spec fn egcd(a: int, b: int) -> (int, int, int, int, int) {
    egcd_loop(a, b, 1, 0, 0, 1)
}

/// `d` divides `n` over the integers.
pub open spec fn divides(d: int, n: int) -> bool {
    exists|k: int| n == #[trigger] (d * k)
}

/// `a` and `b` have no common divisor of two or more, i.e. their greatest
/// common divisor is one.
pub open spec fn coprime(a: int, b: int) -> bool {
    forall|d: int| #![trigger divides(d, a), divides(d, b)] 2 <= d ==> !(divides(d, a) && divides(d, b))
}

/// Both tracks of the recurrence preserve linearity in the two starting
/// values: if the current remainders are the stated combinations of `a`
/// and `b`, the final gcd is a combination with the final coefficients,
/// and the second-to-last coefficients combine to the final remainder,
/// which is zero.
proof fn lemma_loop_linear(
    a: int,
    b: int,
    old_r: int,
    r: int,
    old_s: int,
    s: int,
    old_t: int,
    t: int,
)
    requires
        old_r == old_s * a + old_t * b,
        r == s * a + t * b,
    ensures
        ({
            let (g, fs, ft, fs2, ft2) = egcd_loop(old_r, r, old_s, s, old_t, t);
            g == fs * a + ft * b && fs2 * a + ft2 * b == 0
        }),
    decreases abs(r),
{
    if r == 0 {
    } else {
        let q = trunc_div(old_r, r);
        lemma_trunc_div_facts(old_r, r);
        assert(old_r - q * r == (old_s - q * s) * a + (old_t - q * t) * b) by (nonlinear_arith)
            requires
                old_r == old_s * a + old_t * b,
                r == s * a + t * b,
        ;
        lemma_loop_linear(a, b, r, old_r - q * r, s, old_s - q * s, t, old_t - q * t);
    }
}

/// The final remainder of the recurrence divides both current remainders.
proof fn lemma_loop_divides(old_r: int, r: int, old_s: int, s: int, old_t: int, t: int)
    ensures
        ({
            let (g, fs, ft, fs2, ft2) = egcd_loop(old_r, r, old_s, s, old_t, t);
            divides(g, old_r) && divides(g, r)
        }),
    decreases abs(r),
{
    let (g, fs, ft, fs2, ft2) = egcd_loop(old_r, r, old_s, s, old_t, t);
    if r == 0 {
        assert(old_r == g * 1);
        assert(r == g * 0);
    } else {
        let q = trunc_div(old_r, r);
        lemma_trunc_div_facts(old_r, r);
        lemma_loop_divides(r, old_r - q * r, s, old_s - q * s, t, old_t - q * t);
        let k1 = choose|k: int| r == #[trigger] (g * k);
        let k2 = choose|k: int| old_r - q * r == #[trigger] (g * k);
        assert(old_r == g * (k2 + q * k1)) by (nonlinear_arith)
            requires
                r == g * k1,
                old_r - q * r == g * k2,
        ;
    }
}

/// Bézout identity: for all integers `a` and `b`, the gcd returned by the
/// extended Euclidean recurrence is the combination of `a` and `b` with
/// the returned final coefficients.
pub proof fn lemma_bezout_identity(a: int, b: int)
    ensures
        ({
            let (g, s, t, s2, t2) = egcd(a, b);
            g == s * a + t * b
        }),
{
    lemma_loop_linear(a, b, a, b, 1, 0, 0, 1);
}

/// Gcd correctness: the gcd returned by the recurrence divides both
/// inputs, whatever their signs.
pub proof fn lemma_gcd_divides(a: int, b: int)
    ensures
        ({
            let (g, s, t, s2, t2) = egcd(a, b);
            divides(g, a) && divides(g, b)
        }),
{
    lemma_loop_divides(a, b, 1, 0, 0, 1);
}

/// The returned gcd is greatest in the divisibility order: every common
/// divisor of the inputs divides it.  This is immediate from the Bézout
/// identity.
pub proof fn lemma_gcd_greatest(a: int, b: int, d: int)
    requires
        divides(d, a),
        divides(d, b),
    ensures
        ({
            let (g, s, t, s2, t2) = egcd(a, b);
            divides(d, g)
        }),
{
    let (g, s, t, s2, t2) = egcd(a, b);
    lemma_bezout_identity(a, b);
    let ka = choose|k: int| a == #[trigger] (d * k);
    let kb = choose|k: int| b == #[trigger] (d * k);
    assert(g == d * (s * ka + t * kb)) by (nonlinear_arith)
        requires
            g == s * a + t * b,
            a == d * ka,
            b == d * kb,
    ;
}

/// With a zero second input the recurrence stops immediately:
/// `egcd(a, 0)` is `a` with the identity coefficient pairs, for any `a`.
pub proof fn lemma_egcd_b_zero(a: int)
    ensures
        egcd(a, 0) == (a, 1int, 0int, 0int, 1int),
{
}

/// The descending phase of the recurrence: once the remainder pair is
/// strictly decreasing and non-negative, the `s` coefficients alternate in
/// sign and the quantity `old_r * |s| + r * |old_s|` is conserved.  At
/// termination that conservation pins `gcd * |s2|` to the conserved value
/// and bounds the final coefficient strictly: `|s| < |s2|`.
proof fn lemma_loop_desc(old_r: int, r: int, old_s: int, s: int, old_t: int, t: int, b0: int)
    requires
        0 <= r < old_r,
        1 <= b0,
        old_s * s <= 0,
        old_r * abs(s) + r * abs(old_s) == b0,
        abs(old_s) < abs(s) || 1 <= r,
    ensures
        ({
            let (g, fs, ft, fs2, ft2) = egcd_loop(old_r, r, old_s, s, old_t, t);
            1 <= g && g * abs(fs2) == b0 && abs(fs) < abs(fs2)
        }),
    decreases r,
{
    let mos = abs(old_s) as int;
    let ms = abs(s) as int;
    if r == 0 {
        assert(r * mos == 0) by (nonlinear_arith)
            requires
                r == 0,
        ;
    } else {
        lemma_trunc_div_facts(old_r, r);
        let q = trunc_div(old_r, r);
        let r2 = old_r - q * r;
        assert(r2 == trunc_rem(old_r, r));
        assert(r2 == old_r % r);
        lemma_mod_bound(old_r, r);
        lemma_div_is_ordered(r, old_r, r);
        lemma_div_by_self(r);
        assert(1 <= q);
        let s2n = old_s - q * s;
        let ms2 = abs(s2n) as int;
        // |old_s - q * s| == |old_s| + q * |s|, because the two terms never
        // have the same strict sign.
        if s > 0 {
            assert(old_s <= 0) by (nonlinear_arith)
                requires
                    old_s * s <= 0,
                    s > 0,
            ;
            assert(s2n < 0) by (nonlinear_arith)
                requires
                    s2n == old_s - q * s,
                    old_s <= 0,
                    1 <= q,
                    s > 0,
            ;
            assert(ms2 == mos + q * ms) by (nonlinear_arith)
                requires
                    ms2 == -s2n,
                    s2n == old_s - q * s,
                    mos == -old_s,
                    ms == s,
            ;
        } else if s < 0 {
            assert(old_s >= 0) by (nonlinear_arith)
                requires
                    old_s * s <= 0,
                    s < 0,
            ;
            assert(s2n > 0) by (nonlinear_arith)
                requires
                    s2n == old_s - q * s,
                    old_s >= 0,
                    1 <= q,
                    s < 0,
            ;
            assert(ms2 == mos + q * ms) by (nonlinear_arith)
                requires
                    ms2 == s2n,
                    s2n == old_s - q * s,
                    mos == old_s,
                    ms == -s,
            ;
        } else {
            assert(s2n == old_s) by (nonlinear_arith)
                requires
                    s2n == old_s - q * s,
                    s == 0,
            ;
            assert(ms2 == mos + q * ms) by (nonlinear_arith)
                requires
                    ms2 == mos,
                    ms == 0,
            ;
        }
        // the conserved quantity carries over to the next state
        assert(r * ms2 + r2 * ms == b0) by (nonlinear_arith)
            requires
                ms2 == mos + q * ms,
                r2 == old_r - q * r,
                old_r * ms + r * mos == b0,
        ;
        // the coefficients keep alternating
        assert(s * s2n <= 0) by (nonlinear_arith)
            requires
                old_s * s <= 0,
                1 <= q,
                s2n == old_s - q * s,
        ;
        // the magnitude of the coefficient grows, or the next remainder is
        // still positive
        if old_s != 0 {
            assert(ms < ms2) by (nonlinear_arith)
                requires
                    ms2 == mos + q * ms,
                    mos >= 1,
                    q >= 1,
                    ms >= 0,
            ;
        } else {
            assert(old_r * ms == b0) by (nonlinear_arith)
                requires
                    old_r * ms + r * mos == b0,
                    mos == 0,
            ;
            assert(ms >= 1) by (nonlinear_arith)
                requires
                    old_r * ms == b0,
                    1 <= b0,
                    0 <= ms,
            ;
            if q >= 2 {
                assert(ms < ms2) by (nonlinear_arith)
                    requires
                        ms2 == mos + q * ms,
                        mos == 0,
                        q >= 2,
                        ms >= 1,
                ;
            } else {
                assert(r2 == old_r - r) by (nonlinear_arith)
                    requires
                        r2 == old_r - q * r,
                        q == 1,
                ;
                assert(1 <= r2);
            }
        }
        lemma_loop_desc(r, r2, s, s2n, t, old_t - q * t, b0);
    }
}

/// For a non-negative first input and a positive second input the
/// recurrence returns a positive gcd, and the final `s` coefficient is
/// strictly smaller in magnitude than the second-to-last one, whose
/// magnitude times the gcd is exactly `b`.  In particular, when the gcd is
/// one, `|s| < b`: the property that makes a single conditional addition
/// of the modulus enough to normalize the inverse.
pub proof fn lemma_egcd_coefficient_bound(a: int, b: int)
    requires
        0 <= a,
        1 <= b,
    ensures
        ({
            let (g, s, t, s2, t2) = egcd(a, b);
            1 <= g && g * abs(s2) == b && abs(s) < abs(s2)
        }),
{
    lemma_trunc_div_facts(a, b);
    let q = trunc_div(a, b);
    let r1 = a - q * b;
    assert(r1 == a % b);
    lemma_mod_bound(a, b);
    assert(egcd(a, b) == egcd_loop(b, r1, 0, 1 - q * 0, 1, 0 - q * 1));
    assert(1 - q * 0 == 1) by (nonlinear_arith);
    assert(b * abs(1) + r1 * abs(0) == b) by (nonlinear_arith)
        requires
            abs(1) == 1nat,
            abs(0) == 0nat,
    ;
    lemma_loop_desc(b, r1, 0, 1, 1, 0 - q * 1, b);
}

/// A gcd of one means the inputs are coprime, for all integers: any
/// common divisor of the inputs divides the Bézout combination, hence
/// divides one.
pub proof fn lemma_gcd_one_implies_coprime(a: int, b: int)
    ensures
        ({
            let (g, s, t, s2, t2) = egcd(a, b);
            g == 1 ==> coprime(a, b)
        }),
{
    let (g, s, t, s2, t2) = egcd(a, b);
    if g == 1 {
        assert forall|d: int| #![trigger divides(d, a), divides(d, b)]
            2 <= d implies !(divides(d, a) && divides(d, b)) by {
            if divides(d, a) && divides(d, b) {
                lemma_gcd_greatest(a, b, d);
                let k = choose|k: int| g == #[trigger] (d * k);
                assert(false) by (nonlinear_arith)
                    requires
                        g == d * k,
                        2 <= d,
                        g == 1,
                ;
            }
        }
    }
}

/// For a non-negative `a` and positive `b`, coprimality is equivalent to
/// the recurrence returning exactly one.
pub proof fn lemma_coprime_iff_gcd_one(a: int, b: int)
    requires
        0 <= a,
        1 <= b,
    ensures
        ({
            let (g, s, t, s2, t2) = egcd(a, b);
            g == 1 <==> coprime(a, b)
        }),
{
    let (g, s, t, s2, t2) = egcd(a, b);
    lemma_gcd_one_implies_coprime(a, b);
    if coprime(a, b) && g != 1 {
        lemma_egcd_coefficient_bound(a, b);
        lemma_gcd_divides(a, b);
        assert(2 <= g);
        assert(divides(g, a) && divides(g, b));
        assert(false);
    }
}

} // verus!
