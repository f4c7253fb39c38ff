//! Mathematical models of Rust's integer division and of the clamping used by the
//! arithmetic propagators, with the facts about them that the propagators need.
use vstd::prelude::*;

verus! {

/// Division that truncates toward zero, as Rust's `/` on signed integers.
pub open spec fn tdiv(a: int, b: int) -> int {
    if a >= 0 {
        a / b
    } else {
        -((-a) / b)
    }
}

/// Remainder of truncating division, as Rust's `%` on signed integers.
pub open spec fn trem(a: int, b: int) -> int {
    if a >= 0 {
        a % b
    } else {
        -((-a) % b)
    }
}

/// Division rounding toward negative infinity.
pub open spec fn floor_div_spec(n: int, d: int) -> int {
    if d > 0 {
        n / d
    } else {
        (-n) / (-d)
    }
}

/// Division rounding toward positive infinity.
pub open spec fn ceil_div_spec(n: int, d: int) -> int {
    -floor_div_spec(-n, d)
}

/// `v` clamped into the range of `i32`.
pub open spec fn clamp_i32_spec(v: int) -> int {
    if v < i32::MIN {
        i32::MIN as int
    } else if v > i32::MAX {
        i32::MAX as int
    } else {
        v
    }
}

pub open spec fn abs_int(v: int) -> int {
    if v < 0 {
        -v
    } else {
        v
    }
}

/// Truncating quotients are no larger in magnitude than the dividend, and strictly
/// smaller for a negative dividend unless the divisor is `-1`.
pub proof fn lemma_tdiv_bound(a: int, b: int)
    requires
        b != 0,
    ensures
        a >= 0 ==> -a <= tdiv(a, b) <= a,
        a < 0 ==> a <= tdiv(a, b) <= -a,
        a < 0 && b != -1 ==> tdiv(a, b) < -a,
        b != 1 && b != -1 ==> 2 * abs_int(tdiv(a, b)) <= abs_int(a),
{
    if b != 1 && b != -1 {
        if a >= 0 {
            assert(2 * abs_int(a / b) <= a) by (nonlinear_arith)
                requires
                    a >= 0,
                    b != 0,
                    b != 1,
                    b != -1,
            ;
        } else {
            assert(2 * abs_int((-a) / b) <= -a) by (nonlinear_arith)
                requires
                    a < 0,
                    b != 0,
                    b != 1,
                    b != -1,
            ;
        }
    }
    if a >= 0 {
        assert(-a <= a / b <= a) by (nonlinear_arith)
            requires
                a >= 0,
                b != 0,
        ;
    } else {
        assert(a <= -((-a) / b) <= -a) by (nonlinear_arith)
            requires
                a < 0,
                b != 0,
        ;
        if b != -1 {
            assert(-((-a) / b) < -a) by (nonlinear_arith)
                requires
                    a < 0,
                    b != 0,
                    b != -1,
            ;
        }
    }
}

/// The truncating remainder is smaller in magnitude than the divisor and takes the
/// sign of the dividend; quotient and remainder recompose the dividend.
pub proof fn lemma_trem_props(a: int, b: int)
    requires
        b != 0,
    ensures
        a == b * tdiv(a, b) + trem(a, b),
        abs_int(trem(a, b)) < abs_int(b),
        a >= 0 ==> trem(a, b) >= 0,
        a <= 0 ==> trem(a, b) <= 0,
{
    if a >= 0 {
        assert(a == b * (a / b) + a % b && 0 <= a % b < abs_int(b) && (a == 0 ==> a % b == 0)) by (nonlinear_arith)
            requires
                a >= 0,
                b != 0,
        ;
    } else {
        assert(a == b * (-((-a) / b)) + (-((-a) % b)) && 0 <= (-a) % b < abs_int(b)) by (nonlinear_arith)
            requires
                a < 0,
                b != 0,
        ;
    }
}

/// Floor division is the greatest integer `q` with `q * d <= n` (for positive `d`),
/// and the corresponding statement for negative `d`.
pub proof fn lemma_floor_div_props(n: int, d: int)
    requires
        d != 0,
    ensures
        d > 0 ==> d * floor_div_spec(n, d) <= n < d * floor_div_spec(n, d) + d,
        d < 0 ==> d * floor_div_spec(n, d) >= n > d * floor_div_spec(n, d) + d,
{
    if d > 0 {
        assert(d * (n / d) <= n < d * (n / d) + d) by (nonlinear_arith)
            requires
                d > 0,
        ;
    } else {
        assert((-d) * ((-n) / (-d)) <= -n < (-d) * ((-n) / (-d)) + (-d)) by (nonlinear_arith)
            requires
                d < 0,
        ;
        assert(d * ((-n) / (-d)) >= n > d * ((-n) / (-d)) + d) by (nonlinear_arith)
            requires
                d < 0,
                (-d) * ((-n) / (-d)) <= -n < (-d) * ((-n) / (-d)) + (-d),
        ;
    }
}

/// An integer `q` bracketed as floor division brackets its result is that result.
pub proof fn lemma_floor_div_unique(n: int, d: int, q: int)
    requires
        d > 0 ==> d * q <= n < d * q + d,
        d < 0 ==> d * q >= n > d * q + d,
        d != 0,
    ensures
        q == floor_div_spec(n, d),
{
    lemma_floor_div_props(n, d);
    let f = floor_div_spec(n, d);
    if d > 0 {
        assert(q == f) by (nonlinear_arith)
            requires
                d > 0,
                d * q <= n < d * q + d,
                d * f <= n < d * f + d,
        ;
    } else {
        assert(q == f) by (nonlinear_arith)
            requires
                d < 0,
                d * q >= n > d * q + d,
                d * f >= n > d * f + d,
        ;
    }
}

/// Ceiling division is the least integer `q` with `q * d >= n` (for positive `d`),
/// and the corresponding statement for negative `d`.
pub proof fn lemma_ceil_div_props(n: int, d: int)
    requires
        d != 0,
    ensures
        d > 0 ==> d * ceil_div_spec(n, d) - d < n <= d * ceil_div_spec(n, d),
        d < 0 ==> d * ceil_div_spec(n, d) - d > n >= d * ceil_div_spec(n, d),
{
    lemma_floor_div_props(-n, d);
    let f = floor_div_spec(-n, d);
    if d > 0 {
        assert(d * (-f) - d < n <= d * (-f)) by (nonlinear_arith)
            requires
                d > 0,
                d * f <= -n < d * f + d,
        ;
    } else {
        assert(d * (-f) - d > n >= d * (-f)) by (nonlinear_arith)
            requires
                d < 0,
                d * f >= -n > d * f + d,
        ;
    }
}

/// Clamps a 64-bit value into the range of `i32`.
pub fn clamp_i32(value: i64) -> (r: i32)
    ensures
        r == clamp_i32_spec(value as int),
{
    if value < i32::MIN as i64 {
        i32::MIN
    } else if value > i32::MAX as i64 {
        i32::MAX
    } else {
        value as i32
    }
}

} // verus!
