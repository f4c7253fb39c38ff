//! Bound arithmetic for `c = a mod b` (truncating remainder), with `b ≠ 0`.
use crate::arith::{abs_int, lemma_trem_props, tdiv, trem};
use crate::domain::{
    at_least, at_most, between, greatest, is_greatest, is_least, least, lemma_greatest_is, lemma_least_is,
    lemma_narrow_step, narrows, DomainStore, PropagationStatus, VariableId,
};
use crate::int_div::{max_int, min_int, triple_status};
use vstd::prelude::*;

verus! {

/// Remainder bounds that only use the dividend's sign and the divisor's magnitude.
pub open spec fn rem_sign_bounds(amin: int, amax: int, abs_b: int) -> (int, int) {
    if amin >= 0 {
        (0, abs_b - 1)
    } else if amax <= 0 {
        (1 - abs_b, 0)
    } else {
        (1 - abs_b, abs_b - 1)
    }
}

/// Least remainder over dividends `a0 .. a0 + count`, starting from `i32::MAX`.
pub open spec fn rem_envelope_lo(a0: int, count: nat, b: int) -> int
    decreases count,
{
    if count == 0 {
        i32::MAX as int
    } else {
        min_int(rem_envelope_lo(a0, (count - 1) as nat, b), trem(a0 + count - 1, b))
    }
}

/// Greatest remainder over dividends `a0 .. a0 + count`, starting from `i32::MIN`.
pub open spec fn rem_envelope_hi(a0: int, count: nat, b: int) -> int
    decreases count,
{
    if count == 0 {
        i32::MIN as int
    } else {
        max_int(rem_envelope_hi(a0, (count - 1) as nat, b), trem(a0 + count - 1, b))
    }
}

/// Remainder bounds for dividends in `[amin, amax]`: sign-based when the dividend range
/// covers a full period of `b` or spans more than 10 000 values, exact otherwise.
pub open spec fn rem_bounds_spec(amin: int, amax: int, b: int) -> (int, int) {
    let abs_b = abs_int(b);
    let span = amax - amin + 1;
    if span >= abs_b || span > 10_000 {
        rem_sign_bounds(amin, amax, abs_b)
    } else {
        let count: nat = if span > 0 { span as nat } else { 0 };
        (rem_envelope_lo(amin, count, b), rem_envelope_hi(amin, count, b))
    }
}

/// Bounds of `a % b` for `a` in `[amin, amax]` and a fixed nonzero `b`.
pub fn rem_bounds_fixed_divisor(amin: i32, amax: i32, b: i32) -> (r: (i32, i32))
    requires
        b != 0,
        b == i32::MIN ==> amax - amin + 1 <= 10_000,
    ensures
        r.0 == rem_bounds_spec(amin as int, amax as int, b as int).0,
        r.1 == rem_bounds_spec(amin as int, amax as int, b as int).1,
{
    let abs_b: u32 = if b < 0 { (0i64 - b as i64) as u32 } else { b as u32 };
    let span: i64 = amax as i64 - amin as i64 + 1;
    if span >= abs_b as i64 {
        if amin >= 0 {
            (0, abs_b as i32 - 1)
        } else if amax <= 0 {
            (1 - abs_b as i32, 0)
        } else {
            (1 - abs_b as i32, abs_b as i32 - 1)
        }
    } else if span <= 10_000 {
        let mut lo = i32::MAX;
        let mut hi = i32::MIN;
        let mut value: i64 = amin as i64;
        while value <= amax as i64
            invariant
                amin <= value,
                value <= amax as int + 1 || value == amin,
                b != 0,
                amax - amin + 1 < abs_int(b as int),
                lo == rem_envelope_lo(amin as int, (value - amin) as nat, b as int),
                hi == rem_envelope_hi(amin as int, (value - amin) as nat, b as int),
            decreases amax - value + 1,
        {
            proof {
                lemma_trem_props(value as int, b as int);
            }
            let r = (value as i32) % b;
            lo = if r < lo { r } else { lo };
            hi = if r > hi { r } else { hi };
            value = value + 1;
        }
        (lo, hi)
    } else if amin >= 0 {
        (0, abs_b as i32 - 1)
    } else if amax <= 0 {
        (1 - abs_b as i32, 0)
    } else {
        (1 - abs_b as i32, abs_b as i32 - 1)
    }
}

/// Every remainder of a dividend in `[amin, amax]` lies within `rem_bounds_spec`.
pub proof fn lemma_rem_bounds_sound(amin: int, amax: int, b: int, a: int)
    requires
        b != 0,
        i32::MIN <= b <= i32::MAX,
        amin <= a <= amax,
    ensures
        rem_bounds_spec(amin, amax, b).0 <= trem(a, b) <= rem_bounds_spec(amin, amax, b).1,
{
    lemma_trem_props(a, b);
    let abs_b = abs_int(b);
    let span = amax - amin + 1;
    if !(span >= abs_b || span > 10_000) {
        lemma_rem_envelope_contains(amin, (span as nat), b, a);
    }
}

proof fn lemma_rem_envelope_contains(a0: int, count: nat, b: int, a: int)
    requires
        a0 <= a < a0 + count,
        b != 0,
        i32::MIN <= trem(a, b) <= i32::MAX,
    ensures
        rem_envelope_lo(a0, count, b) <= trem(a, b) <= rem_envelope_hi(a0, count, b),
    decreases count,
{
    if a < a0 + count - 1 {
        lemma_rem_envelope_contains(a0, (count - 1) as nat, b, a);
    }
}

/// Two truncating divisions of `a` by `b` with remainders of the dividend's sign agree.
proof fn lemma_trem_unique(a: int, b: int, q: int, r: int)
    requires
        b != 0,
        a == b * q + r,
        abs_int(r) < abs_int(b),
        a > 0 ==> r >= 0,
        a < 0 ==> r <= 0,
    ensures
        trem(a, b) == r,
{
    lemma_trem_props(a, b);
    let q0 = tdiv(a, b);
    let r0 = trem(a, b);
    assert(b * (q - q0) == r0 - r) by (nonlinear_arith)
        requires
            a == b * q + r,
            a == b * q0 + r0,
    ;
    assert(abs_int(r0 - r) < abs_int(b));
    assert(q - q0 == 0) by (nonlinear_arith)
        requires
            b != 0,
            b * (q - q0) == r0 - r,
            abs_int(r0 - r) < abs_int(b),
    ;
}

/// Moving a dividend by `|b|` keeps its remainder when the dividend keeps its sign or
/// the remainder is zero.
proof fn lemma_trem_shift(a: int, b: int)
    requires
        b != 0,
        a - abs_int(b) >= 0 || a <= 0 || trem(a, b) == 0 || trem(a - abs_int(b), b) == 0,
    ensures
        trem(a - abs_int(b), b) == trem(a, b),
{
    let m = abs_int(b);
    let sg: int = if b > 0 { 1 } else { -1 };
    assert(b * sg == m) by (nonlinear_arith)
        requires
            sg == (if b > 0 { 1int } else { -1int }),
            m == abs_int(b),
    ;
    lemma_trem_props(a, b);
    lemma_trem_props(a - m, b);
    let q = tdiv(a, b);
    let r = trem(a, b);
    let q1 = tdiv(a - m, b);
    let r1 = trem(a - m, b);
    assert(a - m == b * (q - sg) + r) by (nonlinear_arith)
        requires
            a == b * q + r,
            b * sg == m,
    ;
    assert(a == b * (q1 + sg) + r1) by (nonlinear_arith)
        requires
            a - m == b * q1 + r1,
            b * sg == m,
    ;
    if a - m >= 0 || a <= 0 || r == 0 {
        lemma_trem_unique(a - m, b, q - sg, r);
    } else {
        lemma_trem_unique(a, b, q1 + sg, r1);
    }
}

/// A dividend of remainder `rem` at or above `lo` (where the sign of `rem` allows the
/// dividends from `lo` on) has one within `|b|` of `lo`.
proof fn lemma_congruent_in_window(lo: int, b: int, rem: int, y: int)
    requires
        b != 0,
        lo <= y,
        trem(y, b) == rem,
        rem > 0 ==> lo >= 0,
    ensures
        exists|z: int| lo <= z < lo + abs_int(b) && trem(z, b) == rem,
    decreases y - lo,
{
    if y >= lo + abs_int(b) {
        lemma_trem_props(y, b);
        if rem < 0 {
            assert(y <= 0);
        }
        lemma_trem_shift(y, b);
        lemma_congruent_in_window(lo, b, rem, y - abs_int(b));
    }
}

/// A dividend of remainder `rem` at or below `hi` (where the sign of `rem` allows the
/// dividends up to `hi`) has one within `|b|` of `hi`.
proof fn lemma_congruent_in_window_down(hi: int, b: int, rem: int, y: int)
    requires
        b != 0,
        y <= hi,
        trem(y, b) == rem,
        rem < 0 ==> hi <= 0,
    ensures
        exists|z: int| hi - abs_int(b) < z <= hi && trem(z, b) == rem,
    decreases hi - y,
{
    if y <= hi - abs_int(b) {
        let w = y + abs_int(b);
        lemma_trem_props(y, b);
        if rem > 0 {
            assert(y >= 0);
        }
        assert(w - abs_int(b) == y);
        lemma_trem_shift(w, b);
        lemma_congruent_in_window_down(hi, b, rem, w);
    }
}

/// Smallest `x >= start` with `x % b == rem`, if one fits in `i32`.
pub fn first_congruent(start: i32, b: i32, rem: i32) -> (r: Option<i32>)
    requires
        b != 0,
        !(b == -1 && start == i32::MIN),
    ensures
        match r {
            Some(x) => start <= x && trem(x as int, b as int) == rem && forall|y: int| start <= y < x ==> trem(y, b as int) != rem,
            None => forall|y: int| start <= y <= i32::MAX ==> trem(y, b as int) != rem,
        },
{
    let abs_b: i64 = if b < 0 { 0i64 - b as i64 } else { b as i64 };
    // A positive remainder needs a non-negative dividend.
    let lo: i64 = if rem > 0 && start < 0 { 0 } else { start as i64 };
    proof {
        assert forall|y: int| start <= y < lo implies trem(y, b as int) != rem by {
            lemma_trem_props(y, b as int);
        }
    }
    let mut offset: i64 = 0;
    while offset < abs_b
        invariant
            0 <= offset <= abs_b,
            abs_b == abs_int(b as int),
            b != 0,
            !(b == -1 && start == i32::MIN),
            start <= lo,
            lo == start || (lo == 0 && rem > 0),
            forall|y: int| start <= y < lo ==> trem(y, b as int) != rem,
            forall|y: int| lo <= y < lo + offset ==> trem(y, b as int) != rem,
        decreases abs_b - offset,
    {
        let candidate = lo + offset;
        if candidate > i32::MAX as i64 {
            return None;
        }
        let candidate = candidate as i32;
        proof {
            lemma_trem_props(candidate as int, b as int);
        }
        if candidate % b == rem {
            return Some(candidate);
        }
        offset = offset + 1;
    }
    proof {
        assert forall|y: int| start <= y <= i32::MAX implies trem(y, b as int) != rem by {
            if y >= lo && trem(y, b as int) == rem {
                lemma_congruent_in_window(lo as int, b as int, rem as int, y);
            }
        }
    }
    None
}

/// Largest `x <= end` with `x % b == rem`, if one fits in `i32`.
pub fn last_congruent(end: i32, b: i32, rem: i32) -> (r: Option<i32>)
    requires
        b != 0,
        b == -1 ==> end != i32::MIN && (rem == 0 || end != i32::MIN + 1),
    ensures
        match r {
            Some(x) => x <= end && trem(x as int, b as int) == rem && forall|y: int| x < y <= end ==> trem(y, b as int) != rem,
            None => forall|y: int| i32::MIN <= y <= end ==> trem(y, b as int) != rem,
        },
{
    let abs_b: i64 = if b < 0 { 0i64 - b as i64 } else { b as i64 };
    // A negative remainder needs a non-positive dividend.
    let hi: i64 = if rem < 0 && end > 0 { 0 } else { end as i64 };
    proof {
        assert forall|y: int| hi < y <= end implies trem(y, b as int) != rem by {
            lemma_trem_props(y, b as int);
        }
    }
    let mut offset: i64 = 0;
    while offset < abs_b
        invariant
            0 <= offset <= abs_b,
            abs_b == abs_int(b as int),
            b != 0,
            b == -1 ==> end != i32::MIN && (rem == 0 || end != i32::MIN + 1),
            hi <= end,
            hi == end || (hi == 0 && rem < 0),
            forall|y: int| hi < y <= end ==> trem(y, b as int) != rem,
            forall|y: int| hi - offset < y <= hi ==> trem(y, b as int) != rem,
        decreases abs_b - offset,
    {
        let candidate = hi - offset;
        if candidate < i32::MIN as i64 {
            return None;
        }
        let candidate = candidate as i32;
        proof {
            lemma_trem_props(candidate as int, b as int);
            if b == -1 {
                assert(offset == 0);
                assert(hi != i32::MIN);
            }
        }
        if candidate % b == rem {
            return Some(candidate);
        }
        offset = offset + 1;
    }
    proof {
        assert forall|y: int| i32::MIN <= y <= end implies trem(y, b as int) != rem by {
            if y <= hi && trem(y, b as int) == rem {
                lemma_congruent_in_window_down(hi as int, b as int, rem as int, y);
            }
        }
    }
    None
}

/// The smallest `y >= start` within `i32` with `y % b == rem`.
pub open spec fn first_congruent_spec(start: int, b: int, rem: int) -> Option<int> {
    if exists|y: int| start <= y <= i32::MAX && trem(y, b) == rem {
        Some(choose|y: int| start <= y <= i32::MAX && trem(y, b) == rem && forall|z: int| start <= z < y ==> trem(z, b) != rem)
    } else {
        None
    }
}

/// The largest `y <= end` within `i32` with `y % b == rem`.
pub open spec fn last_congruent_spec(end: int, b: int, rem: int) -> Option<int> {
    if exists|y: int| i32::MIN <= y <= end && trem(y, b) == rem {
        Some(choose|y: int| i32::MIN <= y <= end && trem(y, b) == rem && forall|z: int| y < z <= end ==> trem(z, b) != rem)
    } else {
        None
    }
}

/// The domain `d` holds exactly one value.
pub open spec fn is_fixed(d: Set<int>) -> bool {
    exists|v: int| d == set![v]
}

/// `c` cut to the remainders whose magnitude is below the largest magnitude of the
/// divisors between `bl` and `bh`.
pub open spec fn mod_magnitude_cut(s: Seq<Set<int>>, c: int, bl: int, bh: int) -> Seq<Set<int>> {
    let mag = max_int(abs_int(bl), abs_int(bh));
    s.update(c, between(s[c], 1 - mag, mag - 1))
}

/// `c` cut to the sign of the dividends `amin..=amax`.
pub open spec fn mod_sign_cut(s: Seq<Set<int>>, c: int, amin: int, amax: int) -> Seq<Set<int>> {
    let t = if amin >= 0 { s.update(c, at_least(s[c], 0)) } else { s };
    if amax <= 0 { t.update(c, at_most(t[c], 0)) } else { t }
}

/// Store and status after the fixed-divisor step on `s`, with the dividend's bounds
/// `amin..=amax` read before it: `c` is cut to the remainders of those dividends and,
/// when `c` is fixed, `a` to the first and last dividends with that remainder.
pub open spec fn mod_fixed_outcome(
    s0: Seq<Set<int>>,
    s: Seq<Set<int>>,
    a: int,
    b: int,
    c: int,
    amin: int,
    amax: int,
) -> (Seq<Set<int>>, PropagationStatus) {
    let bf = least(s[b]);
    let r = rem_bounds_spec(amin, amax, bf);
    let s4 = s.update(c, between(s[c], r.0, r.1));
    if is_fixed(s4[c]) {
        if s4[a].is_empty() {
            (s4, PropagationStatus::Failure)
        } else {
            let cf = least(s4[c]);
            match (first_congruent_spec(least(s4[a]), bf, cf), last_congruent_spec(greatest(s4[a]), bf, cf)) {
                (Some(f), Some(l)) => {
                    if f > l {
                        (s4, PropagationStatus::Failure)
                    } else {
                        let s5 = s4.update(a, between(s4[a], f, l));
                        (s5, triple_status(s0, s5, a, b, c))
                    }
                },
                _ => (s4, PropagationStatus::Failure),
            }
        }
    } else {
        (s4, triple_status(s0, s4, a, b, c))
    }
}

/// The remainder envelope over `count` dividends from `a0` covers each of their remainders.
proof fn lemma_rem_envelope_covers(a0: int, count: nat, b: int, j: int)
    requires
        0 <= j < count,
    ensures
        rem_envelope_lo(a0, count, b) <= trem(a0 + j, b) <= rem_envelope_hi(a0, count, b),
    decreases count,
{
    if j < count - 1 {
        lemma_rem_envelope_covers(a0, (count - 1) as nat, b, j);
    }
}

/// The remainder of a dividend in `amin..=amax` by `b` lies within [`rem_bounds_spec`].
pub proof fn law_rem_bounds_sound(amin: int, amax: int, b: int, x: int)
    requires
        b != 0,
        amin <= x <= amax,
    ensures
        rem_bounds_spec(amin, amax, b).0 <= trem(x, b) <= rem_bounds_spec(amin, amax, b).1,
{
    lemma_trem_props(x, b);
    let span = amax - amin + 1;
    if !(span >= abs_int(b) || span > 10_000) {
        lemma_rem_envelope_covers(amin, span as nat, b, x - amin);
    }
}

/// The first congruent value from `start` comes no later than any congruent `x`.
proof fn lemma_first_congruent_le(start: int, b: int, rem: int, x: int)
    requires
        start <= x <= i32::MAX,
        trem(x, b) == rem,
    ensures
        first_congruent_spec(start, b, rem) is Some,
        first_congruent_spec(start, b, rem).unwrap() <= x,
{
    lemma_least_congruent_exists(start, b, rem, x);
    let f = first_congruent_spec(start, b, rem).unwrap();
    if f > x {
        assert(start <= x < f);
    }
}

/// Some congruent value in `start..=x` has no congruent value before it from `start`.
proof fn lemma_least_congruent_exists(start: int, b: int, rem: int, x: int)
    requires
        start <= x <= i32::MAX,
        trem(x, b) == rem,
    ensures
        exists|y: int| start <= y <= i32::MAX && trem(y, b) == rem && forall|z: int| start <= z < y ==> trem(z, b) != rem,
    decreases x - start,
{
    if exists|z: int| start <= z < x && trem(z, b) == rem {
        let z = choose|z: int| start <= z < x && trem(z, b) == rem;
        lemma_least_congruent_exists(start, b, rem, z);
    } else {
        assert(start <= x <= i32::MAX && trem(x, b) == rem && forall|z: int| start <= z < x ==> trem(z, b) != rem);
    }
}

/// Some congruent value in `x..=end` has no congruent value after it up to `end`.
proof fn lemma_greatest_congruent_exists(end: int, b: int, rem: int, x: int)
    requires
        i32::MIN <= x <= end,
        trem(x, b) == rem,
    ensures
        exists|y: int| i32::MIN <= y <= end && trem(y, b) == rem && forall|z: int| y < z <= end ==> trem(z, b) != rem,
    decreases end - x,
{
    if exists|z: int| x < z <= end && trem(z, b) == rem {
        let z = choose|z: int| x < z <= end && trem(z, b) == rem;
        lemma_greatest_congruent_exists(end, b, rem, z);
    } else {
        assert(i32::MIN <= x <= end && trem(x, b) == rem && forall|z: int| x < z <= end ==> trem(z, b) != rem);
    }
}

/// The last congruent value up to `end` comes no earlier than any congruent `x`.
proof fn lemma_last_congruent_ge(end: int, b: int, rem: int, x: int)
    requires
        i32::MIN <= x <= end,
        trem(x, b) == rem,
    ensures
        last_congruent_spec(end, b, rem) is Some,
        last_congruent_spec(end, b, rem).unwrap() >= x,
{
    lemma_greatest_congruent_exists(end, b, rem, x);
    let l = last_congruent_spec(end, b, rem).unwrap();
    if l < x {
        assert(l < x <= end);
    }
}

/// The fixed-divisor step keeps a triple of a dividend, the fixed divisor and their
/// remainder, and does not fail on it.
proof fn lemma_mod_fixed_keeps(
    s0: Seq<Set<int>>,
    s: Seq<Set<int>>,
    a: int,
    b: int,
    c: int,
    amin: int,
    amax: int,
    x: int,
    y: int,
)
    requires
        0 <= a < s.len() && 0 <= b < s.len() && 0 <= c < s.len(),
        s.len() == s0.len(),
        a != b && a != c && b != c,
        s[a].finite(),
        i32::MIN <= x <= i32::MAX,
        y != 0,
        amin <= x <= amax,
        s[a].contains(x),
        s[b] == set![y],
        s[c].contains(trem(x, y)),
    ensures
        mod_fixed_outcome(s0, s, a, b, c, amin, amax).0[a].contains(x),
        mod_fixed_outcome(s0, s, a, b, c, amin, amax).0[b].contains(y),
        mod_fixed_outcome(s0, s, a, b, c, amin, amax).0[c].contains(trem(x, y)),
        mod_fixed_outcome(s0, s, a, b, c, amin, amax).1 != PropagationStatus::Failure,
{
    let z = trem(x, y);
    assert(set![y].contains(y));
    assert(is_least(s[b], y));
    lemma_least_is(s[b], y);
    law_rem_bounds_sound(amin, amax, y, x);
    let r = rem_bounds_spec(amin, amax, y);
    let s4 = s.update(c, between(s[c], r.0, r.1));
    assert(s4[c].contains(z));
    assert(s4[a] == s[a] && s4[b] == s[b]);
    lemma_mod_fixed_tail(s0, s4, a, b, c, x, y);
}

/// The last part of the fixed-divisor step, from the cut remainder domain on.
proof fn lemma_mod_fixed_tail(s0: Seq<Set<int>>, s4: Seq<Set<int>>, a: int, b: int, c: int, x: int, y: int)
    requires
        0 <= a < s4.len() && 0 <= b < s4.len() && 0 <= c < s4.len(),
        a != b && a != c && b != c,
        s4[a].finite(),
        i32::MIN <= x <= i32::MAX,
        y != 0,
        s4[a].contains(x),
        s4[b].contains(y),
        s4[c].contains(trem(x, y)),
    ensures
        ({
            let z = trem(x, y);
            let out: (Seq<Set<int>>, PropagationStatus) = if is_fixed(s4[c]) {
                if s4[a].is_empty() {
                    (s4, PropagationStatus::Failure)
                } else {
                    let cf = least(s4[c]);
                    match (first_congruent_spec(least(s4[a]), y, cf), last_congruent_spec(greatest(s4[a]), y, cf)) {
                        (Some(f), Some(l)) => {
                            if f > l {
                                (s4, PropagationStatus::Failure)
                            } else {
                                let s5 = s4.update(a, between(s4[a], f, l));
                                (s5, triple_status(s0, s5, a, b, c))
                            }
                        },
                        _ => (s4, PropagationStatus::Failure),
                    }
                }
            } else {
                (s4, triple_status(s0, s4, a, b, c))
            };
            &&& out.0[a].contains(x) && out.0[b].contains(y) && out.0[c].contains(z)
            &&& out.1 != PropagationStatus::Failure
        }),
{
    let z = trem(x, y);
    if is_fixed(s4[c]) {
        let w = choose|w: int| s4[c] == set![w];
        assert(set![w].contains(z));
        assert(is_least(s4[c], z));
        lemma_least_is(s4[c], z);
        crate::domain::lemma_member_in_bounds(s4[a], x);
        let start = least(s4[a]);
        let end = greatest(s4[a]);
        lemma_first_congruent_le(start, y, z, x);
        lemma_last_congruent_ge(end, y, z, x);
        let fo = first_congruent_spec(start, y, z);
        let lo = last_congruent_spec(end, y, z);
        let f = fo.unwrap();
        let l = lo.unwrap();
        assert(fo == Some(f) && lo == Some(l));
        assert(f <= x <= l);
        let s5 = s4.update(a, between(s4[a], f, l));
        assert(s5[a].contains(x) && s5[b].contains(y) && s5[c].contains(z));
        assert(triple_status(s0, s5, a, b, c) != PropagationStatus::Failure);
    } else {
        assert(triple_status(s0, s4, a, b, c) != PropagationStatus::Failure);
    }
}

/// For distinct variables, every triple of a dividend `x`, a non-zero divisor `y` and
/// their truncating remainder from the three domains survives `c = a % b`, and rules out
/// its failure.
pub proof fn law_int_mod_keeps_solutions(s0: Seq<Set<int>>, a: int, b: int, c: int, x: int, y: int)
    requires
        0 <= a < s0.len() && 0 <= b < s0.len() && 0 <= c < s0.len(),
        a != b && a != c && b != c,
        s0[a].finite() && s0[b].finite() && s0[c].finite(),
        i32::MIN <= x <= i32::MAX,
        y != 0,
        s0[a].contains(x),
        s0[b].contains(y),
        s0[c].contains(trem(x, y)),
    ensures
        int_mod_outcome(s0, a, b, c).0[a].contains(x),
        int_mod_outcome(s0, a, b, c).0[b].contains(y),
        int_mod_outcome(s0, a, b, c).0[c].contains(trem(x, y)),
        int_mod_outcome(s0, a, b, c).1 != PropagationStatus::Failure,
{
    let z = trem(x, y);
    lemma_trem_props(x, y);
    let s1 = s0.update(b, s0[b].remove(0));
    vstd::set_lib::lemma_len_subset(s1[b], s0[b]);
    crate::domain::lemma_member_in_bounds(s1[b], y);
    let s2 = mod_magnitude_cut(s1, c, least(s1[b]), greatest(s1[b]));
    assert(s2[c].contains(z));
    crate::domain::lemma_member_in_bounds(s2[a], x);
    let amin = least(s2[a]);
    let amax = greatest(s2[a]);
    let s3 = mod_sign_cut(s2, c, amin, amax);
    assert(s3[c].contains(z));
    assert(s3[a] == s0[a] && s3[b] == s1[b]);
    if is_fixed(s3[b]) {
        let v = choose|v: int| s3[b] == set![v];
        assert(set![v].contains(y));
        assert(s3[b] =~= set![y]);
        lemma_mod_fixed_keeps(s0, s3, a, b, c, amin, amax, x, y);
    }
}

/// Store and status after propagating `c = a % b` on `s0`.
pub open spec fn int_mod_outcome(s0: Seq<Set<int>>, a: int, b: int, c: int) -> (Seq<Set<int>>, PropagationStatus) {
    if s0[a].is_empty() || s0[b].is_empty() || s0[c].is_empty() {
        (s0, PropagationStatus::Failure)
    } else {
        let s1 = s0.update(b, s0[b].remove(0));
        if s1[b].is_empty() {
            (s1, PropagationStatus::Failure)
        } else {
            let s2 = mod_magnitude_cut(s1, c, least(s1[b]), greatest(s1[b]));
            if s2[a].is_empty() {
                (s2, PropagationStatus::Failure)
            } else {
                let s3 = mod_sign_cut(s2, c, least(s2[a]), greatest(s2[a]));
                if is_fixed(s3[b]) {
                    mod_fixed_outcome(s0, s3, a, b, c, least(s2[a]), greatest(s2[a]))
                } else {
                    (s3, triple_status(s0, s3, a, b, c))
                }
            }
        }
    }
}

/// The fixed-divisor step on `s` overflows: the divisor is `i32::MIN` with more than
/// 10 000 dividends, or `-1` with a dividend at the bottom of `i32`.
pub open spec fn mod_fixed_overflows(s: Seq<Set<int>>, a: int, b: int, c: int, amin: int, amax: int) -> bool {
    let bf = least(s[b]);
    let r = rem_bounds_spec(amin, amax, bf);
    let s4 = s.update(c, between(s[c], r.0, r.1));
    ||| bf == i32::MIN && amax - amin + 1 > 10_000
    ||| is_fixed(s4[c]) && !s4[a].is_empty() && bf == -1 && (least(s4[a]) == i32::MIN || greatest(s4[a]) == i32::MIN || (
    least(s4[c]) != 0 && greatest(s4[a]) == i32::MIN + 1))
}

/// Propagating `c = a % b` on `s0` would overflow `i32` arithmetic.
pub open spec fn int_mod_overflows(s0: Seq<Set<int>>, a: int, b: int, c: int) -> bool {
    let s1 = s0.update(b, s0[b].remove(0));
    let bl = least(s1[b]);
    let bh = greatest(s1[b]);
    let s2 = mod_magnitude_cut(s1, c, bl, bh);
    let s3 = mod_sign_cut(s2, c, least(s2[a]), greatest(s2[a]));
    &&& !s0[a].is_empty() && !s0[b].is_empty() && !s0[c].is_empty() && !s1[b].is_empty()
    &&& !s2[a].is_empty() && is_fixed(s3[b]) && mod_fixed_overflows(s3, a, b, c, least(s2[a]), greatest(s2[a]))
}


/// What [`first_congruent`] returns is [`first_congruent_spec`].
proof fn lemma_first_congruent_spec(start: int, b: int, rem: int, r: Option<i32>)
    requires
        start <= i32::MAX,
        match r {
            Some(x) => start <= x && trem(x as int, b) == rem && forall|y: int| start <= y < x ==> trem(y, b) != rem,
            None => forall|y: int| start <= y <= i32::MAX ==> trem(y, b) != rem,
        },
    ensures
        first_congruent_spec(start, b, rem) == match r {
            Some(x) => Some(x as int),
            None => None::<int>,
        },
{
    if let Some(x) = r {
        assert(start <= x <= i32::MAX && trem(x as int, b) == rem && forall|z: int| start <= z < x ==> trem(z, b) != rem);
        let y = choose|y: int| start <= y <= i32::MAX && trem(y, b) == rem && forall|z: int| start <= z < y ==> trem(z, b) != rem;
        if y < x {
            assert(trem(y, b) != rem);
        }
        if x < y {
            assert(trem(x as int, b) != rem);
        }
    }
}

/// What [`last_congruent`] returns is [`last_congruent_spec`].
proof fn lemma_last_congruent_spec(end: int, b: int, rem: int, r: Option<i32>)
    requires
        end >= i32::MIN,
        match r {
            Some(x) => x <= end && trem(x as int, b) == rem && forall|y: int| x < y <= end ==> trem(y, b) != rem,
            None => forall|y: int| i32::MIN <= y <= end ==> trem(y, b) != rem,
        },
    ensures
        last_congruent_spec(end, b, rem) == match r {
            Some(x) => Some(x as int),
            None => None::<int>,
        },
{
    if let Some(x) = r {
        assert(i32::MIN <= x <= end && trem(x as int, b) == rem && forall|z: int| x < z <= end ==> trem(z, b) != rem);
        let y = choose|y: int| i32::MIN <= y <= end && trem(y, b) == rem && forall|z: int| y < z <= end ==> trem(z, b) != rem;
        if y < x {
            assert(trem(x as int, b) != rem);
        }
        if x < y {
            assert(trem(y, b) != rem);
        }
    }
}

/// The fixed-divisor step (see [`mod_fixed_outcome`]).
fn mod_fixed_phase(
    store: &mut DomainStore,
    a: VariableId,
    b: VariableId,
    c: VariableId,
    amin: i32,
    amax: i32,
    changed: bool,
    Ghost(s0): Ghost<Seq<Set<int>>>,
) -> (status: PropagationStatus)
    requires
        a.index < old(store)@.len(),
        b.index < old(store)@.len(),
        c.index < old(store)@.len(),
        is_fixed(old(store)@[b.index as int]),
        !old(store)@[b.index as int].contains(0),
        !mod_fixed_overflows(old(store)@, a.index as int, b.index as int, c.index as int, amin as int, amax as int),
        narrows(s0, old(store)@),
        changed == (old(store)@ != s0),
    ensures
        (final(store)@, status) == mod_fixed_outcome(
            s0,
            old(store)@,
            a.index as int,
            b.index as int,
            c.index as int,
            amin as int,
            amax as int,
        ),
{
    let ghost s = store@;
    let ghost ai = a.index as int;
    let ghost bi = b.index as int;
    let ghost ci = c.index as int;
    let bfixed = match store.fixed_value(b) {
        Some(v) => v,
        None => {
            proof {
                let v = choose|v: int| s[bi] == set![v];
                assert(s[bi] == set![v]);
            }
            return PropagationStatus::Failure;
        },
    };
    proof {
        assert(s[bi].contains(bfixed as int));
        assert(is_least(s[bi], bfixed as int));
        lemma_least_is(s[bi], bfixed as int);
    }
    let (rmin, rmax) = rem_bounds_fixed_divisor(amin, amax, bfixed);
    let step = store.restrict(c, rmin, rmax);
    let ghost s4 = store@;
    proof {
        lemma_narrow_step(s0, s, s4, changed, step);
    }
    let mut changed = changed || step;
    match store.fixed_value(c) {
        Some(cfixed) => {
            proof {
                assert(is_fixed(s4[ci]));
                assert(s4[ci].contains(cfixed as int));
                assert(is_least(s4[ci], cfixed as int));
                lemma_least_is(s4[ci], cfixed as int);
            }
            let amin2 = match store.min(a) {
                Some(v) => v,
                None => {
                    return PropagationStatus::Failure;
                },
            };
            let amax2 = match store.max(a) {
                Some(v) => v,
                None => {
                    return PropagationStatus::Failure;
                },
            };
            proof {
                lemma_least_is(s4[ai], amin2 as int);
                lemma_greatest_is(s4[ai], amax2 as int);
            }
            let first_opt = first_congruent(amin2, bfixed, cfixed);
            proof {
                lemma_first_congruent_spec(amin2 as int, bfixed as int, cfixed as int, first_opt);
            }
            let first = match first_opt {
                Some(f) => f,
                None => {
                    return PropagationStatus::Failure;
                },
            };
            let last_opt = last_congruent(amax2, bfixed, cfixed);
            proof {
                lemma_last_congruent_spec(amax2 as int, bfixed as int, cfixed as int, last_opt);
            }
            let last = match last_opt {
                Some(l) => l,
                None => {
                    return PropagationStatus::Failure;
                },
            };
            if first > last {
                return PropagationStatus::Failure;
            }
            let step = store.restrict(a, first, last);
            proof {
                lemma_narrow_step(s0, s4, store@, changed, step);
            }
            changed = changed || step;
        },
        None => {
            proof {
                assert(!is_fixed(s4[ci]));
            }
        },
    }
    if store.is_empty(a) || store.is_empty(b) || store.is_empty(c) {
        PropagationStatus::Failure
    } else if changed {
        PropagationStatus::OkChanged
    } else {
        PropagationStatus::OkNoChange
    }
}

/// Propagates `c = a % b` (truncating remainder), with `b != 0`.
pub struct IntModPropagator {
    /// The dividend.
    pub a: VariableId,
    /// The divisor.
    pub b: VariableId,
    /// The remainder.
    pub c: VariableId,
}

impl IntModPropagator {
    /// Creates a propagator for `c = a % b`.
    pub fn new(a: VariableId, b: VariableId, c: VariableId) -> (p: Self)
        ensures
            p.a == a,
            p.b == b,
            p.c == c,
    {
        IntModPropagator { a, b, c }
    }

    /// The variables whose domains this propagator reads.
    pub fn watched_variables(&self) -> (w: Vec<VariableId>)
        ensures
            w@ == seq![self.a, self.b, self.c],
    {
        let w = vec![self.a, self.b, self.c];
        proof {
            assert(w@ =~= seq![self.a, self.b, self.c]);
        }
        w
    }

    /// Removes `0` from the divisor, cuts the remainder by the divisor's magnitude and
    /// the dividend's sign and, with a fixed divisor, by the remainders of the dividend's
    /// range; with a fixed remainder too, cuts the dividend to the first and last values
    /// with that remainder: see [`int_mod_outcome`].
    pub fn propagate(&mut self, store: &mut DomainStore) -> (status: PropagationStatus)
        requires
            old(self).a.index < old(store)@.len(),
            old(self).b.index < old(store)@.len(),
            old(self).c.index < old(store)@.len(),
            !int_mod_overflows(old(store)@, old(self).a.index as int, old(self).b.index as int, old(self).c.index as int),
        ensures
            *final(self) == *old(self),
            (final(store)@, status) == int_mod_outcome(
                old(store)@,
                old(self).a.index as int,
                old(self).b.index as int,
                old(self).c.index as int,
            ),
    {
        let a = self.a;
        let b = self.b;
        let c = self.c;
        let ghost ai = a.index as int;
        let ghost bi = b.index as int;
        let ghost ci = c.index as int;
        let ghost s0 = store@;
        if store.is_empty(a) || store.is_empty(b) || store.is_empty(c) {
            return PropagationStatus::Failure;
        }
        let mut changed = store.remove_value(b, 0);
        let ghost s1 = store@;
        proof {
            assert(narrows(s0, s0));
        }
        let bmin = match store.min(b) {
            Some(v) => v,
            None => {
                return PropagationStatus::Failure;
            },
        };
        let bmax = match store.max(b) {
            Some(v) => v,
            None => {
                return PropagationStatus::Failure;
            },
        };
        proof {
            lemma_least_is(s1[bi], bmin as int);
            lemma_greatest_is(s1[bi], bmax as int);
            assert(bmin != 0 && bmax != 0);
        }
        if bmin > bmax {
            return PropagationStatus::Failure;
        }
        // |c| < |b| for the largest divisor magnitude; the sign of c follows a.
        let low_mag: i64 = if bmin < 0 { 0i64 - bmin as i64 } else { bmin as i64 };
        let high_mag: i64 = if bmax < 0 { 0i64 - bmax as i64 } else { bmax as i64 };
        let mag: i64 = if low_mag >= high_mag { low_mag } else { high_mag };
        let step = store.restrict(c, (1 - mag) as i32, (mag - 1) as i32);
        proof {
            lemma_narrow_step(s0, s1, store@, changed, step);
        }
        changed = changed || step;
        let ghost s2 = store@;
        proof {
            assert(s2 == mod_magnitude_cut(s1, ci, bmin as int, bmax as int));
        }
        let amin = match store.min(a) {
            Some(v) => v,
            None => {
                return PropagationStatus::Failure;
            },
        };
        let amax = match store.max(a) {
            Some(v) => v,
            None => {
                return PropagationStatus::Failure;
            },
        };
        proof {
            lemma_least_is(s2[ai], amin as int);
            lemma_greatest_is(s2[ai], amax as int);
        }
        if amin >= 0 {
            let ghost t = store@;
            let step = store.remove_below(c, 0);
            proof {
                lemma_narrow_step(s0, t, store@, changed, step);
            }
            changed = changed || step;
        }
        if amax <= 0 {
            let ghost t = store@;
            let step = store.remove_above(c, 0);
            proof {
                lemma_narrow_step(s0, t, store@, changed, step);
            }
            changed = changed || step;
        }
        let ghost s3 = store@;
        proof {
            assert(s3 == mod_sign_cut(s2, ci, amin as int, amax as int));
            assert(s3[bi].subset_of(s1[bi]));
        }
        match store.fixed_value(b) {
            Some(_) => {
                proof {
                    assert(is_fixed(s3[bi]));
                }
                mod_fixed_phase(store, a, b, c, amin, amax, changed, Ghost(s0))
            },
            None => {
                proof {
                    assert(!is_fixed(s3[bi]));
                }
                if store.is_empty(a) || store.is_empty(b) || store.is_empty(c) {
                    PropagationStatus::Failure
                } else if changed {
                    PropagationStatus::OkChanged
                } else {
                    PropagationStatus::OkNoChange
                }
            },
        }
    }
}

} // verus!
