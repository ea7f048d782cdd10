//! Fixed-point trigonometry over angles given in millionths of a degree
//! (microdegrees). Sine and cosine values are Q30 fixed point: the integer
//! `v` stands for the real number `v / 2^30`. Each executable function is
//! pinned to a specification function that performs the same integer
//! arithmetic, so every result is a deterministic function of its inputs.

use vstd::prelude::*;
use vstd::arithmetic::div_mod::lemma_div_is_ordered;
use vstd::arithmetic::div_mod::lemma_div_pos_is_pos;
use vstd::arithmetic::div_mod::lemma_div_nonincreasing;
use vstd::arithmetic::div_mod::lemma_mod_bound;

verus! {

/// The Q30 fixed-point representation of 1.
pub const ONE_Q30: i64 = 1073741824;

/// 2^20, the scale of the two Q20 conversion constants below.
pub const SCALE_Q20: i64 = 1048576;

/// Round(pi / 180e6 * 2^50): converts microdegrees to Q30 radians.
pub const RAD_PER_UDEG_Q50: i64 = 19650660;

/// Round(6371 km * pi / 180e6 * 2^20): millimetres of great-circle arc per
/// microdegree of central angle, on a sphere of radius 6371 km.
pub const MM_PER_UDEG_Q20: i64 = 116596331;

/// Round(180e6 / (pi * 1e9) * 2^30): converts nanoradians to microdegrees.
pub const UDEG_PER_NRAD_Q30: i64 = 61520875;

pub const FULL_TURN_UDEG: i64 = 360000000;
pub const HALF_TURN_UDEG: i64 = 180000000;
pub const QUARTER_TURN_UDEG: i64 = 90000000;
pub const EIGHTH_TURN_UDEG: i64 = 45000000;

pub open spec fn iabs(x: int) -> int {
    if x < 0 {
        -x
    } else {
        x
    }
}

/// Microdegrees to Q30 radians: floor(r * RAD_PER_UDEG_Q50 / 2^20).
pub open spec fn q30_of_udeg(r: int) -> int {
    r * (RAD_PER_UDEG_Q50 as int) / (SCALE_Q20 as int)
}

/// Degree-9 Taylor polynomial for sine, evaluated in Q30 by Horner's rule.
/// Intended for arguments in [0, pi/4 * 2^30].
pub open spec fn sin_taylor(x: int) -> int {
    let one: int = ONE_Q30 as int;
    let x2: int = x * x / one;
    let t4: int = one - x2 / 72;
    let t3: int = one - x2 * t4 / 42 / one;
    let t2: int = one - x2 * t3 / 20 / one;
    let t1: int = one - x2 * t2 / 6 / one;
    x * t1 / one
}

/// Degree-8 Taylor polynomial for cosine, evaluated in Q30 by Horner's rule.
/// Intended for arguments in [0, pi/4 * 2^30].
pub open spec fn cos_taylor(x: int) -> int {
    let one: int = ONE_Q30 as int;
    let x2: int = x * x / one;
    let t4: int = one - x2 / 56;
    let t3: int = one - x2 * t4 / 30 / one;
    let t2: int = one - x2 * t3 / 12 / one;
    one - x2 * t2 / 2 / one
}

/// Sine on the first quadrant, [0, 90e6] microdegrees: arguments up to 45
/// degrees use the sine polynomial, the rest fold onto the cosine of the
/// complement.
pub open spec fn sin_core(r: int) -> int {
    if r <= EIGHTH_TURN_UDEG as int {
        sin_taylor(q30_of_udeg(r))
    } else {
        cos_taylor(q30_of_udeg(QUARTER_TURN_UDEG as int - r))
    }
}

/// Sine on [0, 180e6) microdegrees, folded onto the first quadrant.
pub open spec fn sin_half(r: int) -> int {
    if r > QUARTER_TURN_UDEG as int {
        sin_core(HALF_TURN_UDEG as int - r)
    } else {
        sin_core(r)
    }
}

/// Sine of a nonnegative angle in microdegrees, reduced modulo a full turn.
pub open spec fn sin_pos(a: int) -> int {
    let m: int = a % (FULL_TURN_UDEG as int);
    if m >= HALF_TURN_UDEG as int {
        -sin_half(m - HALF_TURN_UDEG as int)
    } else {
        sin_half(m)
    }
}

/// Sine of any angle in microdegrees, as a Q30 value.
pub open spec fn sin_q30(a: int) -> int {
    if a < 0 {
        -sin_pos(-a)
    } else {
        sin_pos(a)
    }
}

/// Cosine of any angle in microdegrees, as a Q30 value.
pub open spec fn cos_q30(a: int) -> int {
    sin_q30(a + QUARTER_TURN_UDEG as int)
}

/// Bisection for the integer square root: the greatest `r` in `[lo, hi]`
/// with `r * r <= n`, provided `lo * lo <= n`.
pub open spec fn sqrt_rec(n: int, lo: int, hi: int) -> int
    decreases hi - lo,
{
    if hi <= lo {
        lo
    } else {
        let mid: int = (lo + hi + 1) / 2;
        if mid * mid <= n {
            sqrt_rec(n, mid, hi)
        } else {
            sqrt_rec(n, lo, mid - 1)
        }
    }
}

/// Integer square root of a value below 2^64.
pub open spec fn sqrt_spec(n: int) -> int {
    sqrt_rec(n, 0, 4294967296)
}

/// Bisection for the inverse of `sin_core`: the greatest angle in `[lo, hi]`
/// microdegrees whose `sin_core` does not exceed `s`.
pub open spec fn asin_rec(s: int, lo: int, hi: int) -> int
    decreases hi - lo,
{
    if hi <= lo {
        lo
    } else {
        let mid: int = (lo + hi + 1) / 2;
        if sin_core(mid) <= s {
            asin_rec(s, mid, hi)
        } else {
            asin_rec(s, lo, mid - 1)
        }
    }
}

/// Inverse sine: Q30 value to microdegrees in [0, 90e6]. Values at or below
/// zero map to zero and values at or above one map to a quarter turn.
pub open spec fn asin_udeg(s: int) -> int {
    if s <= 0 {
        0
    } else if s >= ONE_Q30 as int {
        QUARTER_TURN_UDEG as int
    } else {
        asin_rec(s, 0, QUARTER_TURN_UDEG as int)
    }
}

/// Angle in microdegrees recovered from a (sine, cosine) pair of Q30 values
/// that came from a common angle. The smaller component drives the bisection,
/// so the recovery is well conditioned in every quadrant; the result lies in
/// (-180e6, 180e6].
pub open spec fn atan2_udeg(s: int, c: int) -> int {
    let sa: int = iabs(s);
    let ca: int = iabs(c);
    let base: int = if sa <= ca {
        asin_udeg(sa)
    } else {
        QUARTER_TURN_UDEG as int - asin_udeg(ca)
    };
    let ang: int = if c >= 0 {
        base
    } else {
        HALF_TURN_UDEG as int - base
    };
    if s < 0 {
        -ang
    } else {
        ang
    }
}

/// One Horner stage is bounded: dividing a product of two Q30 values in
/// [0, ONE] by a positive constant and rescaling stays in [0, ONE].
proof fn lemma_stage_bound(x2: int, t: int, d: int)
    requires
        0 <= x2 <= ONE_Q30 as int,
        0 <= t <= ONE_Q30 as int,
        1 <= d,
    ensures
        0 <= x2 * t / d / (ONE_Q30 as int) <= ONE_Q30 as int,
{
    let one: int = ONE_Q30 as int;
    assert(x2 * t >= 0) by (nonlinear_arith)
        requires x2 >= 0 && t >= 0;
    assert(x2 * t <= one * one) by (nonlinear_arith)
        requires 0 <= x2 <= one && 0 <= t <= one;
    lemma_div_pos_is_pos(x2 * t, d);
    lemma_div_nonincreasing(x2 * t, d);
    lemma_div_pos_is_pos(x2 * t / d, one);
    lemma_div_is_ordered(x2 * t / d, one * one, one);
    assert(one * one / one == one) by (nonlinear_arith)
        requires one == 1073741824;
}

/// The scaled-radian image of a first-quadrant-after-folding argument stays
/// within the polynomials' intended range.
proof fn lemma_q30_of_udeg_bound(r: int)
    requires
        0 <= r <= EIGHTH_TURN_UDEG as int,
    ensures
        0 <= q30_of_udeg(r) <= 900000000,
{
    let c: int = RAD_PER_UDEG_Q50 as int;
    let q: int = SCALE_Q20 as int;
    assert(r * c >= 0) by (nonlinear_arith)
        requires r >= 0 && c > 0;
    assert(r * c <= 45000000 * c) by (nonlinear_arith)
        requires r <= 45000000 && c > 0;
    lemma_div_pos_is_pos(r * c, q);
    lemma_div_is_ordered(r * c, 45000000 * c, q);
}

/// The sine polynomial stays within [0, x] on its intended range.
proof fn lemma_sin_taylor_bound(x: int)
    requires
        0 <= x <= 900000000,
    ensures
        0 <= sin_taylor(x) <= x,
{
    let one: int = ONE_Q30 as int;
    let x2: int = x * x / one;
    assert(x * x >= 0) by (nonlinear_arith)
        requires x >= 0;
    assert(x * x <= one * one) by (nonlinear_arith)
        requires 0 <= x <= one;
    lemma_div_pos_is_pos(x * x, one);
    lemma_div_is_ordered(x * x, one * one, one);
    assert(one * one / one == one) by (nonlinear_arith)
        requires one == 1073741824;
    lemma_div_pos_is_pos(x2, 72);
    lemma_div_nonincreasing(x2, 72);
    let t4: int = one - x2 / 72;
    lemma_stage_bound(x2, t4, 42);
    let t3: int = one - x2 * t4 / 42 / one;
    lemma_stage_bound(x2, t3, 20);
    let t2: int = one - x2 * t3 / 20 / one;
    lemma_stage_bound(x2, t2, 6);
    let t1: int = one - x2 * t2 / 6 / one;
    assert(x * t1 >= 0) by (nonlinear_arith)
        requires x >= 0 && t1 >= 0;
    assert(x * t1 <= x * one) by (nonlinear_arith)
        requires x >= 0 && t1 <= one;
    lemma_div_pos_is_pos(x * t1, one);
    lemma_div_is_ordered(x * t1, x * one, one);
    assert(x * one / one == x) by (nonlinear_arith)
        requires one == 1073741824;
}

/// The cosine polynomial stays within [0, ONE] on its intended range.
proof fn lemma_cos_taylor_bound(x: int)
    requires
        0 <= x <= 900000000,
    ensures
        0 <= cos_taylor(x) <= ONE_Q30 as int,
{
    let one: int = ONE_Q30 as int;
    let x2: int = x * x / one;
    assert(x * x >= 0) by (nonlinear_arith)
        requires x >= 0;
    assert(x * x <= one * one) by (nonlinear_arith)
        requires 0 <= x <= one;
    lemma_div_pos_is_pos(x * x, one);
    lemma_div_is_ordered(x * x, one * one, one);
    assert(one * one / one == one) by (nonlinear_arith)
        requires one == 1073741824;
    lemma_div_pos_is_pos(x2, 56);
    lemma_div_nonincreasing(x2, 56);
    let t4: int = one - x2 / 56;
    lemma_stage_bound(x2, t4, 30);
    let t3: int = one - x2 * t4 / 30 / one;
    lemma_stage_bound(x2, t3, 12);
    let t2: int = one - x2 * t3 / 12 / one;
    lemma_stage_bound(x2, t2, 2);
}

/// First-quadrant sine values lie in [0, ONE].
pub proof fn lemma_sin_core_range(r: int)
    requires
        0 <= r <= QUARTER_TURN_UDEG as int,
    ensures
        0 <= sin_core(r) <= ONE_Q30 as int,
{
    if r <= EIGHTH_TURN_UDEG as int {
        lemma_q30_of_udeg_bound(r);
        lemma_sin_taylor_bound(q30_of_udeg(r));
    } else {
        lemma_q30_of_udeg_bound(QUARTER_TURN_UDEG as int - r);
        lemma_cos_taylor_bound(q30_of_udeg(QUARTER_TURN_UDEG as int - r));
    }
}

/// Sine values lie in [-ONE, ONE] for every angle.
pub proof fn lemma_sin_range(a: int)
    ensures
        -(ONE_Q30 as int) <= sin_q30(a) <= ONE_Q30 as int,
{
    lemma_sin_pos_range(if a < 0 { -a } else { a });
}

proof fn lemma_sin_pos_range(a: int)
    requires
        a >= 0,
    ensures
        -(ONE_Q30 as int) <= sin_pos(a) <= ONE_Q30 as int,
{
    let m: int = a % (FULL_TURN_UDEG as int);
    lemma_mod_bound(a, FULL_TURN_UDEG as int);
    if m >= HALF_TURN_UDEG as int {
        lemma_sin_half_range(m - HALF_TURN_UDEG as int);
    } else {
        lemma_sin_half_range(m);
    }
}

proof fn lemma_sin_half_range(r: int)
    requires
        0 <= r < HALF_TURN_UDEG as int,
    ensures
        0 <= sin_half(r) <= ONE_Q30 as int,
{
    if r > QUARTER_TURN_UDEG as int {
        lemma_sin_core_range(HALF_TURN_UDEG as int - r);
    } else {
        lemma_sin_core_range(r);
    }
}

/// The bisection for the inverse sine stays within its bracket.
pub proof fn lemma_asin_rec_range(s: int, lo: int, hi: int)
    requires
        0 <= lo <= hi,
    ensures
        lo <= asin_rec(s, lo, hi) <= hi,
    decreases hi - lo,
{
    if hi > lo {
        let mid: int = (lo + hi + 1) / 2;
        if sin_core(mid) <= s {
            lemma_asin_rec_range(s, mid, hi);
        } else {
            lemma_asin_rec_range(s, lo, mid - 1);
        }
    }
}

/// Inverse-sine results lie in the first quadrant.
pub proof fn lemma_asin_range(s: int)
    ensures
        0 <= asin_udeg(s) <= QUARTER_TURN_UDEG as int,
{
    if 0 < s < ONE_Q30 as int {
        lemma_asin_rec_range(s, 0, QUARTER_TURN_UDEG as int);
    }
}

/// The bisection result is the integer square root: its square does not
/// exceed `n`, while the next integer's square does.
pub proof fn lemma_sqrt_rec_property(n: int, lo: int, hi: int)
    requires
        0 <= lo <= hi,
        lo * lo <= n,
        n < (hi + 1) * (hi + 1),
    ensures
        lo <= sqrt_rec(n, lo, hi) <= hi,
        sqrt_rec(n, lo, hi) * sqrt_rec(n, lo, hi) <= n,
        n < (sqrt_rec(n, lo, hi) + 1) * (sqrt_rec(n, lo, hi) + 1),
    decreases hi - lo,
{
    if hi > lo {
        let mid: int = (lo + hi + 1) / 2;
        if mid * mid <= n {
            lemma_sqrt_rec_property(n, mid, hi);
        } else {
            lemma_sqrt_rec_property(n, lo, mid - 1);
        }
    }
}

/// The integer square root of any value below 2^64 is correct.
pub proof fn lemma_sqrt_property(n: int)
    requires
        0 <= n,
        n < 4294967297 * 4294967297,
    ensures
        0 <= sqrt_spec(n) <= 4294967296,
        sqrt_spec(n) * sqrt_spec(n) <= n,
        n < (sqrt_spec(n) + 1) * (sqrt_spec(n) + 1),
{
    lemma_sqrt_rec_property(n, 0, 4294967296);
}

fn sin_taylor_x(x: u64) -> (r: i64)
    requires
        x <= 900000000,
    ensures
        r as int == sin_taylor(x as int),
        0 <= r <= x,
{
    proof {
        lemma_sin_taylor_bound(x as int);
    }
    let one: u128 = 1073741824;
    let xe: u128 = x as u128;
    proof {
        assert(xe as int * xe as int <= 900000000 * 900000000) by (nonlinear_arith)
            requires 0 <= xe as int <= 900000000;
    }
    let x2: u128 = xe * xe / one;
    proof {
        let onei: int = ONE_Q30 as int;
        assert(x as int * x as int <= onei * onei) by (nonlinear_arith)
            requires 0 <= x as int <= onei;
        lemma_div_is_ordered(x as int * x as int, onei * onei, onei);
        assert(onei * onei / onei == onei) by (nonlinear_arith)
            requires onei == 1073741824;
        lemma_div_pos_is_pos(x2 as int, 72);
        lemma_div_nonincreasing(x2 as int, 72);
        lemma_stage_bound(x2 as int, ONE_Q30 as int - x2 as int / 72, 42);
        lemma_stage_bound(
            x2 as int,
            ONE_Q30 as int - (x2 as int) * (ONE_Q30 as int - x2 as int / 72) / 42 / (
            ONE_Q30 as int),
            20,
        );
    }
    let t4: u128 = one - x2 / 72;
    let t3: u128 = one - x2 * t4 / 42 / one;
    let t2: u128 = one - x2 * t3 / 20 / one;
    proof {
        lemma_stage_bound(x2 as int, t2 as int, 6);
    }
    let t1: u128 = one - x2 * t2 / 6 / one;
    proof {
        assert(x as int * t1 as int <= x as int * ONE_Q30 as int) by (nonlinear_arith)
            requires x as int >= 0 && 0 <= t1 as int <= ONE_Q30 as int;
    }
    let r: u128 = xe * t1 / one;
    r as i64
}

fn cos_taylor_x(x: u64) -> (r: i64)
    requires
        x <= 900000000,
    ensures
        r as int == cos_taylor(x as int),
        0 <= r <= ONE_Q30,
{
    proof {
        lemma_cos_taylor_bound(x as int);
    }
    let one: u128 = 1073741824;
    let xe: u128 = x as u128;
    proof {
        assert(xe as int * xe as int <= 900000000 * 900000000) by (nonlinear_arith)
            requires 0 <= xe as int <= 900000000;
    }
    let x2: u128 = xe * xe / one;
    proof {
        let onei: int = ONE_Q30 as int;
        assert(x as int * x as int <= onei * onei) by (nonlinear_arith)
            requires 0 <= x as int <= onei;
        lemma_div_is_ordered(x as int * x as int, onei * onei, onei);
        assert(onei * onei / onei == onei) by (nonlinear_arith)
            requires onei == 1073741824;
        lemma_div_pos_is_pos(x2 as int, 56);
        lemma_div_nonincreasing(x2 as int, 56);
        lemma_stage_bound(x2 as int, ONE_Q30 as int - x2 as int / 56, 30);
        lemma_stage_bound(
            x2 as int,
            ONE_Q30 as int - (x2 as int) * (ONE_Q30 as int - x2 as int / 56) / 30 / (
            ONE_Q30 as int),
            12,
        );
    }
    let t4: u128 = one - x2 / 56;
    let t3: u128 = one - x2 * t4 / 30 / one;
    let t2: u128 = one - x2 * t3 / 12 / one;
    proof {
        lemma_stage_bound(x2 as int, t2 as int, 2);
    }
    let r: u128 = one - x2 * t2 / 2 / one;
    r as i64
}

/// Sine on the first quadrant, in microdegrees.
pub(crate) fn sin_core_x(r: u64) -> (v: i64)
    requires
        r <= QUARTER_TURN_UDEG as u64,
    ensures
        v as int == sin_core(r as int),
        0 <= v <= ONE_Q30,
{
    proof {
        lemma_sin_core_range(r as int);
    }
    if r <= EIGHTH_TURN_UDEG as u64 {
        let x: u128 = (r as u128) * 19650660 / 1048576;
        proof {
            lemma_q30_of_udeg_bound(r as int);
        }
        sin_taylor_x(x as u64)
    } else {
        let c: u64 = QUARTER_TURN_UDEG as u64 - r;
        let x: u128 = (c as u128) * 19650660 / 1048576;
        proof {
            lemma_q30_of_udeg_bound(c as int);
        }
        cos_taylor_x(x as u64)
    }
}

fn sin_half_x(r: u64) -> (v: i64)
    requires
        r < HALF_TURN_UDEG as u64,
    ensures
        v as int == sin_half(r as int),
        0 <= v <= ONE_Q30,
{
    if r > QUARTER_TURN_UDEG as u64 {
        sin_core_x(HALF_TURN_UDEG as u64 - r)
    } else {
        sin_core_x(r)
    }
}

/// Sine of a nonnegative angle in microdegrees.
pub(crate) fn sin_pos_x(a: u128) -> (v: i64)
    ensures
        v as int == sin_pos(a as int),
        -ONE_Q30 <= v <= ONE_Q30,
{
    let m: u128 = a % 360000000;
    if m >= 180000000 {
        let w: i64 = sin_half_x((m - 180000000) as u64);
        -w
    } else {
        sin_half_x(m as u64)
    }
}

/// Sine of any angle in microdegrees.
pub fn sin_udeg(a: i64) -> (v: i64)
    ensures
        v as int == sin_q30(a as int),
        -ONE_Q30 <= v <= ONE_Q30,
{
    if a < 0 {
        let m: i128 = -(a as i128);
        let w: i64 = sin_pos_x(m as u128);
        -w
    } else {
        sin_pos_x(a as u128)
    }
}

/// Cosine of any angle in microdegrees.
pub fn cos_udeg(a: i64) -> (v: i64)
    ensures
        v as int == cos_q30(a as int),
        -ONE_Q30 <= v <= ONE_Q30,
{
    let b: i128 = a as i128 + QUARTER_TURN_UDEG as i128;
    if b < 0 {
        let m: i128 = -b;
        let w: i64 = sin_pos_x(m as u128);
        -w
    } else {
        sin_pos_x(b as u128)
    }
}

/// Integer square root by bisection.
pub fn isqrt(n: u64) -> (r: u64)
    ensures
        r as int == sqrt_spec(n as int),
        r <= 4294967296,
{
    let mut lo: u64 = 0;
    let mut hi: u64 = 4294967296;
    while lo < hi
        invariant
            0 <= lo <= hi <= 4294967296,
            sqrt_rec(n as int, lo as int, hi as int) == sqrt_spec(n as int),
        decreases hi - lo,
    {
        let mid: u64 = (lo + hi + 1) / 2;
        proof {
            assert(mid as int * mid as int <= 4294967297 * 4294967297) by (nonlinear_arith)
                requires 0 <= mid as int <= 4294967297;
        }
        if (mid as u128) * (mid as u128) <= n as u128 {
            lo = mid;
        } else {
            hi = mid - 1;
        }
    }
    lo
}

/// Inverse sine by bisection over `sin_core`.
pub fn asin_udeg_x(s: i64) -> (r: u64)
    ensures
        r as int == asin_udeg(s as int),
        r <= QUARTER_TURN_UDEG as u64,
{
    if s <= 0 {
        return 0;
    }
    if s >= ONE_Q30 {
        return QUARTER_TURN_UDEG as u64;
    }
    let mut lo: u64 = 0;
    let mut hi: u64 = QUARTER_TURN_UDEG as u64;
    while lo < hi
        invariant
            0 <= lo <= hi <= QUARTER_TURN_UDEG as u64,
            asin_rec(s as int, lo as int, hi as int) == asin_rec(
                s as int,
                0,
                QUARTER_TURN_UDEG as int,
            ),
        decreases hi - lo,
    {
        let mid: u64 = (lo + hi + 1) / 2;
        if sin_core_x(mid) <= s {
            lo = mid;
        } else {
            hi = mid - 1;
        }
    }
    lo
}

/// Angle recovery from a (sine, cosine) pair of Q30 values.
pub fn atan2_udeg_x(s: i64, c: i64) -> (r: i64)
    ensures
        r as int == atan2_udeg(s as int, c as int),
        -(HALF_TURN_UDEG as int) <= r as int <= HALF_TURN_UDEG as int,
{
    let sa128: i128 = if s < 0 {
        -(s as i128)
    } else {
        s as i128
    };
    let ca128: i128 = if c < 0 {
        -(c as i128)
    } else {
        c as i128
    };
    let base: i64 = if sa128 <= ca128 {
        let sa: i64 = if sa128 > ONE_Q30 as i128 {
            ONE_Q30
        } else {
            sa128 as i64
        };
        proof {
            if sa128 > ONE_Q30 as i128 {
                assert(asin_udeg(sa128 as int) == asin_udeg(iabs(s as int)));
            }
            lemma_asin_range(iabs(s as int));
        }
        asin_udeg_x(sa) as i64
    } else {
        let ca: i64 = if ca128 > ONE_Q30 as i128 {
            ONE_Q30
        } else {
            ca128 as i64
        };
        proof {
            if ca128 > ONE_Q30 as i128 {
                assert(asin_udeg(ca128 as int) == asin_udeg(iabs(c as int)));
            }
            lemma_asin_range(iabs(c as int));
        }
        QUARTER_TURN_UDEG - asin_udeg_x(ca) as i64
    };
    let ang: i64 = if c >= 0 {
        base
    } else {
        HALF_TURN_UDEG - base
    };
    if s < 0 {
        -ang
    } else {
        ang
    }
}

} // verus!
