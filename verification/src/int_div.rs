//! Bound arithmetic for `c = a / b` (truncating toward zero), with `b ≠ 0`.
use crate::arith::{abs_int, clamp_i32, clamp_i32_spec, lemma_tdiv_bound, lemma_trem_props, tdiv, trem};
use crate::domain::{
    between, greatest, is_greatest, is_least, least, lemma_greatest_is, lemma_least_is, lemma_narrow_step, narrows,
    DomainStore, PropagationStatus, VariableId,
};
use vstd::prelude::*;

verus! {

/// Truncating division of two `i32` values.
pub fn trunc_div(a: i32, b: i32) -> (q: i32)
    requires
        b != 0,
        !(a == i32::MIN && b == -1),
    ensures
        q == tdiv(a as int, b as int),
{
    proof {
        lemma_tdiv_bound(a as int, b as int);
    }
    a / b
}

pub open spec fn min_int(a: int, b: int) -> int {
    if a <= b { a } else { b }
}

pub open spec fn max_int(a: int, b: int) -> int {
    if a >= b { a } else { b }
}

/// Smallest and largest of the four corner quotients.
pub open spec fn quot_corners(amin: int, amax: int, bmin: int, bmax: int) -> (int, int) {
    let c0 = tdiv(amin, bmin);
    let c1 = tdiv(amin, bmax);
    let c2 = tdiv(amax, bmin);
    let c3 = tdiv(amax, bmax);
    (
        min_int(min_int(min_int(c0, c1), c2), c3),
        max_int(max_int(max_int(c0, c1), c2), c3),
    )
}

/// Union of trunc-div images for `b` ranging over a nonzero same-sign interval.
pub fn quot_bounds_divisor_interval(amin: i32, amax: i32, bmin: i32, bmax: i32) -> (r: (i32, i32))
    requires
        bmin != 0,
        bmax != 0,
        !(amin == i32::MIN && (bmin == -1 || bmax == -1)),
        !(amax == i32::MIN && (bmin == -1 || bmax == -1)),
    ensures
        r.0 == quot_corners(amin as int, amax as int, bmin as int, bmax as int).0,
        r.1 == quot_corners(amin as int, amax as int, bmin as int, bmax as int).1,
{
    let corners = [
        trunc_div(amin, bmin),
        trunc_div(amin, bmax),
        trunc_div(amax, bmin),
        trunc_div(amax, bmax),
    ];
    let mut lo = corners[0];
    let mut hi = corners[0];
    let mut i: usize = 1;
    while i < 4
        invariant
            1 <= i <= 4,
            corners@.len() == 4,
            lo == (if i == 1 { corners@[0] as int } else if i == 2 { min_int(corners@[0] as int, corners@[1] as int) } else if i == 3 {
                min_int(min_int(corners@[0] as int, corners@[1] as int), corners@[2] as int)
            } else {
                min_int(min_int(min_int(corners@[0] as int, corners@[1] as int), corners@[2] as int), corners@[3] as int)
            }),
            hi == (if i == 1 { corners@[0] as int } else if i == 2 { max_int(corners@[0] as int, corners@[1] as int) } else if i == 3 {
                max_int(max_int(corners@[0] as int, corners@[1] as int), corners@[2] as int)
            } else {
                max_int(max_int(max_int(corners@[0] as int, corners@[1] as int), corners@[2] as int), corners@[3] as int)
            }),
        decreases 4 - i,
    {
        let q = corners[i];
        if q < lo {
            lo = q;
        }
        if q > hi {
            hi = q;
        }
        i = i + 1;
    }
    (lo, hi)
}

/// Least dividend whose truncating quotient by `b` is `q`.
pub open spec fn quotient_dividend_lo(q: int, b: int) -> int {
    let abs_b = abs_int(b);
    if b > 0 {
        if q > 0 { q * b } else if q < 0 { q * b - (abs_b - 1) } else { -(abs_b - 1) }
    } else if q > 0 {
        q * b - (abs_b - 1)
    } else if q < 0 {
        q * b
    } else {
        -(abs_b - 1)
    }
}

/// Greatest dividend whose truncating quotient by `b` is `q`.
pub open spec fn quotient_dividend_hi(q: int, b: int) -> int {
    let abs_b = abs_int(b);
    if b > 0 {
        if q > 0 { q * b + (abs_b - 1) } else if q < 0 { q * b } else { abs_b - 1 }
    } else if q > 0 {
        q * b
    } else if q < 0 {
        q * b + (abs_b - 1)
    } else {
        abs_b - 1
    }
}

proof fn lemma_quotient_dividend_range(q: int, b: int)
    requires
        i32::MIN <= q <= i32::MAX,
        i32::MIN <= b <= i32::MAX,
        b != 0,
    ensures
        -0x4000_0000_8000_0000 <= quotient_dividend_lo(q, b) <= 0x4000_0000_8000_0000,
        -0x4000_0000_8000_0000 <= quotient_dividend_hi(q, b) <= 0x4000_0000_8000_0000,
{
    assert(-0x4000_0000_0000_0000 <= q * b <= 0x4000_0000_0000_0000) by (nonlinear_arith)
        requires
            i32::MIN <= q <= i32::MAX,
            i32::MIN <= b <= i32::MAX,
    ;
}

/// Dividend interval whose trunc-div by fixed `b` yields quotient `q`.
pub fn dividend_interval_for_quotient(q: i32, b: i32) -> (r: (i64, i64))
    requires
        b != 0,
    ensures
        r.0 == quotient_dividend_lo(q as int, b as int),
        r.1 == quotient_dividend_hi(q as int, b as int),
{
    proof {
        lemma_quotient_dividend_range(q as int, b as int);
        assert(-0x4000_0000_0000_0000 <= (q as int) * (b as int) <= 0x4000_0000_0000_0000) by (nonlinear_arith)
            requires
                i32::MIN <= q <= i32::MAX,
                i32::MIN <= b <= i32::MAX,
        ;
    }
    let b = b as i64;
    let q = q as i64;
    let abs_b = if b < 0 { -b } else { b };
    if b > 0 {
        if q > 0 {
            (q * b, q * b + (abs_b - 1))
        } else if q < 0 {
            (q * b - (abs_b - 1), q * b)
        } else {
            (-(abs_b - 1), abs_b - 1)
        }
    } else if q > 0 {
        (q * b - (abs_b - 1), q * b)
    } else if q < 0 {
        (q * b, q * b + (abs_b - 1))
    } else {
        (-(abs_b - 1), abs_b - 1)
    }
}

/// Least dividend over quotients `q0 .. q0 + count`, starting from `i64::MAX`.
pub open spec fn envelope_lo(q0: int, count: nat, b: int) -> int
    decreases count,
{
    if count == 0 {
        i64::MAX as int
    } else {
        min_int(envelope_lo(q0, (count - 1) as nat, b), quotient_dividend_lo(q0 + count - 1, b))
    }
}

/// Greatest dividend over quotients `q0 .. q0 + count`, starting from `i64::MIN`.
pub open spec fn envelope_hi(q0: int, count: nat, b: int) -> int
    decreases count,
{
    if count == 0 {
        i64::MIN as int
    } else {
        max_int(envelope_hi(q0, (count - 1) as nat, b), quotient_dividend_hi(q0 + count - 1, b))
    }
}

/// Dividend bounds for quotients in `[cmin, cmax]`: the exact union of the quotient
/// intervals when the range spans at most 10 000 values, else the envelope of the two
/// endpoint intervals; clamped into `i32`.
pub open spec fn dividend_bounds_spec(cmin: int, cmax: int, b: int) -> (int, int) {
    if abs_int(cmax - cmin) > 10_000 {
        (
            clamp_i32_spec(min_int(quotient_dividend_lo(cmin, b), quotient_dividend_lo(cmax, b))),
            clamp_i32_spec(max_int(quotient_dividend_hi(cmin, b), quotient_dividend_hi(cmax, b))),
        )
    } else {
        let count: nat = if cmax >= cmin { (cmax - cmin + 1) as nat } else { 0 };
        (clamp_i32_spec(envelope_lo(cmin, count, b)), clamp_i32_spec(envelope_hi(cmin, count, b)))
    }
}

proof fn lemma_envelope_range(q0: int, count: nat, b: int)
    requires
        i32::MIN <= q0,
        q0 + count - 1 <= i32::MAX,
        i32::MIN <= b <= i32::MAX,
        b != 0,
    ensures
        i64::MIN <= envelope_lo(q0, count, b) <= i64::MAX,
        i64::MIN <= envelope_hi(q0, count, b) <= i64::MAX,
    decreases count,
{
    if count > 0 {
        lemma_envelope_range(q0, (count - 1) as nat, b);
        lemma_quotient_dividend_range(q0 + count - 1, b);
    }
}

/// Bounds on the dividend `a` such that `a / b` lies in `[cmin, cmax]`.
pub fn dividend_bounds_for_quotients(cmin: i32, cmax: i32, b: i32) -> (r: (i32, i32))
    requires
        b != 0,
    ensures
        r.0 == dividend_bounds_spec(cmin as int, cmax as int, b as int).0,
        r.1 == dividend_bounds_spec(cmin as int, cmax as int, b as int).1,
{
    let mut lo = i64::MAX;
    let mut hi = i64::MIN;
    let span: i64 = cmax as i64 - cmin as i64;
    let abs_span: i64 = if span < 0 { -span } else { span };
    if abs_span > 10_000 {
        let (qlo, qhi) = dividend_interval_for_quotient(cmin, b);
        lo = if qlo < lo { qlo } else { lo };
        hi = if qhi > hi { qhi } else { hi };
        let (qlo, qhi) = dividend_interval_for_quotient(cmax, b);
        lo = if qlo < lo { qlo } else { lo };
        hi = if qhi > hi { qhi } else { hi };
    } else {
        let mut q: i64 = cmin as i64;
        while q <= cmax as i64
            invariant
                cmin <= q,
                q <= cmax as int + 1 || q == cmin,
                b != 0,
                lo == envelope_lo(cmin as int, (q - cmin) as nat, b as int),
                hi == envelope_hi(cmin as int, (q - cmin) as nat, b as int),
            decreases cmax - q + 1,
        {
            let (qlo, qhi) = dividend_interval_for_quotient(q as i32, b);
            lo = if qlo < lo { qlo } else { lo };
            hi = if qhi > hi { qhi } else { hi };
            q = q + 1;
        }
    }
    (clamp_i32(lo), clamp_i32(hi))
}


/// Bounds of the truncating quotients of `amin..=amax` by the non-zero divisors between
/// `bl` and `bh`: the corners of the whole range when it has one sign, else the union of
/// the corners of its negative part `bl..=-1` and of its positive part `1..=bh`.
pub open spec fn quot_bounds_spec(amin: int, amax: int, bl: int, bh: int) -> (int, int) {
    if bl > 0 || bh < 0 {
        quot_corners(amin, amax, bl, bh)
    } else {
        let n = quot_corners(amin, amax, bl, -1);
        let p = quot_corners(amin, amax, 1, bh);
        (min_int(n.0, p.0), max_int(n.1, p.1))
    }
}

/// Truncating division by a negative divisor is the negated division by its magnitude.
proof fn lemma_tdiv_neg(x: int, d: int)
    requires
        d > 0,
    ensures
        tdiv(x, -d) == -tdiv(x, d),
{
    let n = if x >= 0 { x } else { -x };
    vstd::arithmetic::div_mod::lemma_fundamental_div_mod(n, d);
    vstd::arithmetic::div_mod::lemma_fundamental_div_mod(n, -d);
    assert(n == (-d) * (-(n / d)) + n % d) by (nonlinear_arith)
        requires
            n == d * (n / d) + n % d,
    ;
    assert(0 <= n % d < d) by (nonlinear_arith)
        requires
            d > 0,
    ;
    assert(0 <= n % (-d) < d) by (nonlinear_arith)
        requires
            d > 0,
    ;
    assert(n / (-d) == -(n / d)) by (nonlinear_arith)
        requires
            n == (-d) * (-(n / d)) + n % d,
            n == (-d) * (n / (-d)) + n % (-d),
            0 <= n % d < d,
            0 <= n % (-d) < d,
            d > 0,
    ;
}

/// For a positive divisor the truncating quotient grows with the dividend.
proof fn lemma_tdiv_mono_x(x1: int, x2: int, d: int)
    requires
        x1 <= x2,
        d > 0,
    ensures
        tdiv(x1, d) <= tdiv(x2, d),
{
    if x1 >= 0 {
        vstd::arithmetic::div_mod::lemma_div_is_ordered(x1, x2, d);
    } else if x2 < 0 {
        vstd::arithmetic::div_mod::lemma_div_is_ordered(-x2, -x1, d);
    } else {
        vstd::arithmetic::div_mod::lemma_div_pos_is_pos(-x1, d);
        vstd::arithmetic::div_mod::lemma_div_pos_is_pos(x2, d);
    }
}

/// For positive divisors, a larger divisor pulls the truncating quotient toward zero.
proof fn lemma_tdiv_mono_d(x: int, d1: int, d2: int)
    requires
        0 < d1 <= d2,
    ensures
        x >= 0 ==> tdiv(x, d2) <= tdiv(x, d1),
        x < 0 ==> tdiv(x, d1) <= tdiv(x, d2),
{
    if x >= 0 {
        vstd::arithmetic::div_mod::lemma_div_is_ordered_by_denominator(x, d1, d2);
    } else {
        vstd::arithmetic::div_mod::lemma_div_is_ordered_by_denominator(-x, d1, d2);
    }
}

/// For positive divisors, the corner quotients bound every quotient of the box.
proof fn lemma_quot_corners_pos(amin: int, amax: int, bmin: int, bmax: int, x: int, y: int)
    requires
        amin <= x <= amax,
        0 < bmin <= y <= bmax,
    ensures
        quot_corners(amin, amax, bmin, bmax).0 <= tdiv(x, y) <= quot_corners(amin, amax, bmin, bmax).1,
{
    lemma_tdiv_mono_d(x, bmin, y);
    lemma_tdiv_mono_d(x, y, bmax);
    lemma_tdiv_mono_x(amin, x, bmin);
    lemma_tdiv_mono_x(x, amax, bmin);
    lemma_tdiv_mono_x(amin, x, bmax);
    lemma_tdiv_mono_x(x, amax, bmax);
}

/// The corner quotients bound every quotient of the box when the divisors have one sign.
proof fn lemma_quot_corners(amin: int, amax: int, bmin: int, bmax: int, x: int, y: int)
    requires
        amin <= x <= amax,
        bmin <= y <= bmax,
        bmin > 0 || bmax < 0,
    ensures
        quot_corners(amin, amax, bmin, bmax).0 <= tdiv(x, y) <= quot_corners(amin, amax, bmin, bmax).1,
{
    if bmin > 0 {
        lemma_quot_corners_pos(amin, amax, bmin, bmax, x, y);
    } else {
        lemma_quot_corners_pos(amin, amax, -bmax, -bmin, x, -y);
        lemma_tdiv_neg(x, -y);
        lemma_tdiv_neg(amin, -bmin);
        lemma_tdiv_neg(amin, -bmax);
        lemma_tdiv_neg(amax, -bmin);
        lemma_tdiv_neg(amax, -bmax);
    }
}

/// The truncating quotient of a dividend in `amin..=amax` by a non-zero divisor in
/// `bl..=bh` lies within [`quot_bounds_spec`].
pub proof fn law_quot_bounds_sound(amin: int, amax: int, bl: int, bh: int, x: int, y: int)
    requires
        amin <= x <= amax,
        bl <= y <= bh,
        y != 0,
    ensures
        quot_bounds_spec(amin, amax, bl, bh).0 <= tdiv(x, y) <= quot_bounds_spec(amin, amax, bl, bh).1,
{
    if bl > 0 || bh < 0 {
        lemma_quot_corners(amin, amax, bl, bh, x, y);
    } else if y < 0 {
        lemma_quot_corners(amin, amax, bl, -1, x, y);
    } else {
        lemma_quot_corners(amin, amax, 1, bh, x, y);
    }
}

/// A dividend lies between the least and greatest dividends of its quotient.
proof fn lemma_dividend_char(x: int, b: int)
    requires
        b != 0,
    ensures
        quotient_dividend_lo(tdiv(x, b), b) <= x <= quotient_dividend_hi(tdiv(x, b), b),
{
    lemma_trem_props(x, b);
    let q = tdiv(x, b);
    let r = trem(x, b);
    assert(x == b * q + r);
    assert(abs_int(r) < abs_int(b));
    assert(q * b == b * q) by (nonlinear_arith);
    if q == 0 {
        assert(b * q == 0) by (nonlinear_arith)
            requires
                q == 0,
        ;
    }
    if b > 0 {
        if q > 0 {
            assert(b * q >= b) by (nonlinear_arith)
                requires
                    b > 0,
                    q > 0,
            ;
        } else if q < 0 {
            assert(b * q <= -b) by (nonlinear_arith)
                requires
                    b > 0,
                    q < 0,
            ;
        }
    } else {
        if q > 0 {
            assert(b * q <= b) by (nonlinear_arith)
                requires
                    b < 0,
                    q > 0,
            ;
        } else if q < 0 {
            assert(b * q >= -b) by (nonlinear_arith)
                requires
                    b < 0,
                    q < 0,
            ;
        }
    }
}

/// The envelope over `count` quotients from `q0` covers the dividends of each of them.
proof fn lemma_envelope_covers(q0: int, count: nat, b: int, j: int)
    requires
        0 <= j < count,
    ensures
        envelope_lo(q0, count, b) <= quotient_dividend_lo(q0 + j, b),
        envelope_hi(q0, count, b) >= quotient_dividend_hi(q0 + j, b),
    decreases count,
{
    if j < count - 1 {
        lemma_envelope_covers(q0, (count - 1) as nat, b, j);
    }
}

/// The least and greatest dividends move monotonically with the quotient: up for a
/// positive divisor, down for a negative one.
proof fn lemma_dividend_mono(q1: int, q2: int, b: int)
    requires
        q1 <= q2,
        b != 0,
    ensures
        b > 0 ==> quotient_dividend_lo(q1, b) <= quotient_dividend_lo(q2, b) && quotient_dividend_hi(q1, b)
            <= quotient_dividend_hi(q2, b),
        b < 0 ==> quotient_dividend_lo(q1, b) >= quotient_dividend_lo(q2, b) && quotient_dividend_hi(q1, b)
            >= quotient_dividend_hi(q2, b),
{
    assert(q1 * b <= q2 * b || b < 0) by (nonlinear_arith)
        requires
            q1 <= q2,
    ;
    assert(q1 * b >= q2 * b || b > 0) by (nonlinear_arith)
        requires
            q1 <= q2,
    ;
    if b > 0 {
        if q1 < 0 {
            assert(q1 * b <= -b) by (nonlinear_arith)
                requires
                    b > 0,
                    q1 < 0,
            ;
        }
        if q2 > 0 {
            assert(q2 * b >= b) by (nonlinear_arith)
                requires
                    b > 0,
                    q2 > 0,
            ;
        }
    } else {
        if q1 < 0 {
            assert(q1 * b >= -b) by (nonlinear_arith)
                requires
                    b < 0,
                    q1 < 0,
            ;
        }
        if q2 > 0 {
            assert(q2 * b <= b) by (nonlinear_arith)
                requires
                    b < 0,
                    q2 > 0,
            ;
        }
    }
}

/// A dividend in `i32` whose truncating quotient by `b` lies in `cmin..=cmax` lies
/// within [`dividend_bounds_spec`].
pub proof fn law_dividend_bounds_sound(cmin: int, cmax: int, b: int, x: int)
    requires
        b != 0,
        i32::MIN <= x <= i32::MAX,
        cmin <= tdiv(x, b) <= cmax,
    ensures
        dividend_bounds_spec(cmin, cmax, b).0 <= x <= dividend_bounds_spec(cmin, cmax, b).1,
{
    let q = tdiv(x, b);
    lemma_dividend_char(x, b);
    if abs_int(cmax - cmin) > 10_000 {
        lemma_dividend_mono(cmin, q, b);
        lemma_dividend_mono(q, cmax, b);
    } else {
        let count: nat = (cmax - cmin + 1) as nat;
        lemma_envelope_covers(cmin, count, b, q - cmin);
    }
}

/// For distinct variables, every triple of a dividend `x`, a non-zero divisor `y` and
/// their truncating quotient from the three domains survives `c = a / b`, and rules out
/// its failure.
pub proof fn law_int_div_keeps_solutions(s0: Seq<Set<int>>, a: int, b: int, c: int, x: int, y: int)
    requires
        0 <= a < s0.len() && 0 <= b < s0.len() && 0 <= c < s0.len(),
        a != b && a != c && b != c,
        s0[a].finite() && s0[b].finite() && s0[c].finite(),
        i32::MIN <= x <= i32::MAX,
        y != 0,
        s0[a].contains(x),
        s0[b].contains(y),
        s0[c].contains(tdiv(x, y)),
    ensures
        int_div_outcome(s0, a, b, c).0[a].contains(x),
        int_div_outcome(s0, a, b, c).0[b].contains(y),
        int_div_outcome(s0, a, b, c).0[c].contains(tdiv(x, y)),
        int_div_outcome(s0, a, b, c).1 != PropagationStatus::Failure,
{
    let z = tdiv(x, y);
    let s1 = s0.update(b, s0[b].remove(0));
    vstd::set_lib::lemma_len_subset(s1[b], s0[b]);
    crate::domain::lemma_member_in_bounds(s1[a], x);
    crate::domain::lemma_member_in_bounds(s1[b], y);
    law_quot_bounds_sound(least(s1[a]), greatest(s1[a]), least(s1[b]), greatest(s1[b]), x, y);
    let q = quot_bounds_spec(least(s1[a]), greatest(s1[a]), least(s1[b]), greatest(s1[b]));
    let s2 = s1.update(c, between(s1[c], q.0, q.1));
    assert(s2[c].contains(z));
    if exists|v: int| s2[b] == set![v] {
        let v = choose|v: int| s2[b] == set![v];
        assert(set![v].contains(y));
        assert(crate::domain::is_least(s2[b], y));
        lemma_least_is(s2[b], y);
        vstd::set_lib::lemma_len_subset(s2[c], s0[c]);
        crate::domain::lemma_member_in_bounds(s2[c], z);
        law_dividend_bounds_sound(least(s2[c]), greatest(s2[c]), y, x);
        let d = dividend_bounds_spec(least(s2[c]), greatest(s2[c]), least(s2[b]));
        let s3 = s2.update(a, between(s2[a], d.0, d.1));
        assert(s3[a].contains(x));
    }
}

/// The quotient bounds would divide `i32::MIN` by `-1`: the dividend domain `da` holds
/// `i32::MIN` and the non-zero divisors `db` reach `-1` at a corner.
pub open spec fn div_overflows(da: Set<int>, db: Set<int>) -> bool {
    &&& da.contains(i32::MIN as int)
    &&& !db.is_empty()
    &&& (greatest(db) == -1 || (least(db) < 0 && greatest(db) > 0))
}

/// Status at the end of a propagation that took the store from `s0` to `t`, reading
/// `a`, `b` and `c`.
pub open spec fn triple_status(s0: Seq<Set<int>>, t: Seq<Set<int>>, a: int, b: int, c: int) -> PropagationStatus {
    if t[a].is_empty() || t[b].is_empty() || t[c].is_empty() {
        PropagationStatus::Failure
    } else if t != s0 {
        PropagationStatus::OkChanged
    } else {
        PropagationStatus::OkNoChange
    }
}

/// Store and status after propagating `c = a / b` on `s0`: `0` leaves `b`; `c` is cut
/// to [`quot_bounds_spec`]; when `b` is fixed, `a` is cut to the dividends whose
/// quotients lie in `c`'s bounds ([`dividend_bounds_spec`]).
pub open spec fn int_div_outcome(s0: Seq<Set<int>>, a: int, b: int, c: int) -> (Seq<Set<int>>, PropagationStatus) {
    if s0[a].is_empty() || s0[b].is_empty() || s0[c].is_empty() {
        (s0, PropagationStatus::Failure)
    } else {
        let s1 = s0.update(b, s0[b].remove(0));
        if s1[b].is_empty() {
            (s1, PropagationStatus::Failure)
        } else {
            let q = quot_bounds_spec(least(s1[a]), greatest(s1[a]), least(s1[b]), greatest(s1[b]));
            let s2 = s1.update(c, between(s1[c], q.0, q.1));
            if exists|v: int| s2[b] == set![v] {
                if s2[c].is_empty() {
                    (s2, PropagationStatus::Failure)
                } else {
                    let d = dividend_bounds_spec(least(s2[c]), greatest(s2[c]), least(s2[b]));
                    if d.0 > d.1 {
                        (s2, PropagationStatus::Failure)
                    } else {
                        let s3 = s2.update(a, between(s2[a], d.0, d.1));
                        (s3, triple_status(s0, s3, a, b, c))
                    }
                }
            } else {
                (s2, triple_status(s0, s2, a, b, c))
            }
        }
    }
}

/// Propagates `c = a / b` (truncating toward zero), with `b != 0`.
pub struct IntDivPropagator {
    /// The dividend.
    pub a: VariableId,
    /// The divisor.
    pub b: VariableId,
    /// The quotient.
    pub c: VariableId,
}

impl IntDivPropagator {
    /// Creates a propagator for `c = a / b`.
    pub fn new(a: VariableId, b: VariableId, c: VariableId) -> (p: Self)
        ensures
            p.a == a,
            p.b == b,
            p.c == c,
    {
        IntDivPropagator { a, b, c }
    }

    /// The variables whose domains this propagator reads.
    pub fn watched_variables(&self) -> (w: Vec<VariableId>)
        ensures
            w@ == seq![self.a, self.b, self.c],
    {
        let w = vec![self.a, self.b, self.c];
        proof {
            assert(w@ =~= seq![self.a, self.b, self.c]);
        }
        w
    }

    /// Removes `0` from the divisor, cuts the quotient to the image of the operands'
    /// bounds and, with a fixed divisor, the dividend to the preimage of the quotient's
    /// bounds: see [`int_div_outcome`].
    pub fn propagate(&mut self, store: &mut DomainStore) -> (status: PropagationStatus)
        requires
            old(self).a.index < old(store)@.len(),
            old(self).b.index < old(store)@.len(),
            old(self).c.index < old(store)@.len(),
            !(!old(store)@[old(self).c.index as int].is_empty() && div_overflows(
                old(store)@[old(self).a.index as int],
                old(store)@[old(self).b.index as int].remove(0),
            )),
        ensures
            *final(self) == *old(self),
            (final(store)@, status) == int_div_outcome(
                old(store)@,
                old(self).a.index as int,
                old(self).b.index as int,
                old(self).c.index as int,
            ),
    {
        let a = self.a;
        let b = self.b;
        let c = self.c;
        let ghost ai = a.index as int;
        let ghost bi = b.index as int;
        let ghost ci = c.index as int;
        let ghost s0 = store@;
        if store.is_empty(a) || store.is_empty(b) || store.is_empty(c) {
            return PropagationStatus::Failure;
        }
        store.assert_in_range();
        let mut changed = store.remove_value(b, 0);
        let ghost s1 = store@;
        proof {
            assert(narrows(s0, s0));
        }
        let bmin = match store.min(b) {
            Some(v) => v,
            None => {
                return PropagationStatus::Failure;
            },
        };
        let bmax = match store.max(b) {
            Some(v) => v,
            None => {
                return PropagationStatus::Failure;
            },
        };
        let amin = match store.min(a) {
            Some(v) => v,
            None => {
                return PropagationStatus::Failure;
            },
        };
        let amax = match store.max(a) {
            Some(v) => v,
            None => {
                return PropagationStatus::Failure;
            },
        };
        proof {
            lemma_least_is(s1[bi], bmin as int);
            lemma_greatest_is(s1[bi], bmax as int);
            lemma_least_is(s1[ai], amin as int);
            lemma_greatest_is(s1[ai], amax as int);
            assert(s1[bi] == s0[bi].remove(0));
            assert(bmin != 0 && bmax != 0);
            assert(s1[ai].contains(amin as int));
            assert(amin == i32::MIN ==> s0[ai].contains(i32::MIN as int));
            assert(amax == i32::MIN ==> amin == i32::MIN);
        }
        let (qmin, qmax) = if bmin > 0 || bmax < 0 {
            quot_bounds_divisor_interval(amin, amax, bmin, bmax)
        } else {
            let mut lo = i32::MAX;
            let mut hi = i32::MIN;
            if bmin <= -1 {
                let (l, h) = quot_bounds_divisor_interval(amin, amax, bmin, -1);
                lo = if l < lo { l } else { lo };
                hi = if h > hi { h } else { hi };
            }
            if bmax >= 1 {
                let (l, h) = quot_bounds_divisor_interval(amin, amax, 1, bmax);
                lo = if l < lo { l } else { lo };
                hi = if h > hi { h } else { hi };
            }
            if lo > hi {
                return PropagationStatus::Failure;
            }
            (lo, hi)
        };
        proof {
            let q = quot_bounds_spec(amin as int, amax as int, bmin as int, bmax as int);
            assert(qmin == q.0 && qmax == q.1);
        }
        let step = store.restrict(c, qmin, qmax);
        let ghost s2 = store@;
        proof {
            lemma_narrow_step(s0, s1, s2, changed, step);
        }
        changed = changed || step;
        match store.fixed_value(b) {
            Some(bfixed) => {
                proof {
                    assert(s2[bi].contains(bfixed as int));
                    assert(s2[bi].subset_of(s1[bi]));
                    assert(bfixed != 0);
                    assert(is_least(s2[bi], bfixed as int));
                    lemma_least_is(s2[bi], bfixed as int);
                }
                let cmin = match store.min(c) {
                    Some(v) => v,
                    None => {
                        return PropagationStatus::Failure;
                    },
                };
                let cmax = match store.max(c) {
                    Some(v) => v,
                    None => {
                        return PropagationStatus::Failure;
                    },
                };
                proof {
                    lemma_least_is(s2[ci], cmin as int);
                    lemma_greatest_is(s2[ci], cmax as int);
                }
                let (alo, ahi) = dividend_bounds_for_quotients(cmin, cmax, bfixed);
                if alo > ahi {
                    return PropagationStatus::Failure;
                }
                let step = store.restrict(a, alo, ahi);
                proof {
                    lemma_narrow_step(s0, s2, store@, changed, step);
                }
                changed = changed || step;
            },
            None => {},
        }
        if store.is_empty(a) || store.is_empty(b) || store.is_empty(c) {
            PropagationStatus::Failure
        } else if changed {
            PropagationStatus::OkChanged
        } else {
            PropagationStatus::OkNoChange
        }
    }
}

} // verus!
