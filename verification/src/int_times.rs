//! Bound arithmetic for `c = a * b`.
use crate::arith::{
    abs_int, ceil_div_spec, clamp_i32, clamp_i32_spec, floor_div_spec, lemma_ceil_div_props, lemma_floor_div_props,
    lemma_floor_div_unique, lemma_tdiv_bound, lemma_trem_props,
};
use crate::domain::{
    between, greatest, in_i32_range, lemma_greatest_is, lemma_least_is, lemma_narrows_trans, least, narrows, DomainStore,
    PropagationStatus, VariableId,
};
use crate::int_abs::{lemma_within_after_cut, lemma_within_subset, within};
use crate::int_mod::is_fixed;
use crate::solutions::{
    assignment_in, assignment_on, has_solution, has_solution_on, keeps, keeps_on, lemma_progress_empty, lemma_progress_facts,
    lemma_progress_start, progress, remove_value_step, restrict_step,
};
use vstd::prelude::*;

verus! {

/// Floor division toward −∞ (`n / d` for nonzero `d`).
pub fn floor_div(n: i64, d: i64) -> (q: i64)
    requires
        d != 0,
        !(n == i64::MIN && d == -1),
    ensures
        q == floor_div_spec(n as int, d as int),
{
    proof {
        lemma_tdiv_bound(n as int, d as int);
        lemma_trem_props(n as int, d as int);
    }
    let q = n / d;
    let r = n % d;
    proof {
        let (ni, di, qi, ri) = (n as int, d as int, q as int, r as int);
        if r != 0 && (n < 0) != (d < 0) {
            assert(di > 0 ==> di * (qi - 1) <= ni < di * (qi - 1) + di) by (nonlinear_arith)
                requires ni == di * qi + ri, abs_int(ri) < abs_int(di), ri != 0, (ni < 0) != (di < 0),
                    ni >= 0 ==> ri >= 0, ni <= 0 ==> ri <= 0;
            assert(di < 0 ==> di * (qi - 1) >= ni > di * (qi - 1) + di) by (nonlinear_arith)
                requires ni == di * qi + ri, abs_int(ri) < abs_int(di), ri != 0, (ni < 0) != (di < 0),
                    ni >= 0 ==> ri >= 0, ni <= 0 ==> ri <= 0;
            lemma_floor_div_unique(ni, di, qi - 1);
        } else {
            assert(di > 0 ==> di * qi <= ni < di * qi + di) by (nonlinear_arith)
                requires ni == di * qi + ri, abs_int(ri) < abs_int(di), !(ri != 0 && (ni < 0) != (di < 0)),
                    ni >= 0 ==> ri >= 0, ni <= 0 ==> ri <= 0;
            assert(di < 0 ==> di * qi >= ni > di * qi + di) by (nonlinear_arith)
                requires ni == di * qi + ri, abs_int(ri) < abs_int(di), !(ri != 0 && (ni < 0) != (di < 0)),
                    ni >= 0 ==> ri >= 0, ni <= 0 ==> ri <= 0;
            lemma_floor_div_unique(ni, di, qi);
        }
    }
    if r != 0 && (n < 0) != (d < 0) {
        q - 1
    } else {
        q
    }
}

/// Ceiling division toward +∞ (`n / d` for nonzero `d`).
pub fn ceil_div(n: i64, d: i64) -> (q: i64)
    requires
        d != 0,
        !(n == i64::MIN && d == -1),
    ensures
        q == ceil_div_spec(n as int, d as int),
{
    proof {
        lemma_tdiv_bound(n as int, d as int);
        lemma_trem_props(n as int, d as int);
    }
    let q = n / d;
    let r = n % d;
    proof {
        let (ni, di, qi, ri) = (n as int, d as int, q as int, r as int);
        let c = if r != 0 && (n < 0) == (d < 0) { qi + 1 } else { qi };
        // `-c` brackets `-n` the way floor division does.
        assert(di > 0 ==> di * (-c) <= -ni < di * (-c) + di) by (nonlinear_arith)
            requires ni == di * qi + ri, abs_int(ri) < abs_int(di),
                c == (if ri != 0 && (ni < 0) == (di < 0) { qi + 1 } else { qi }),
                ni >= 0 ==> ri >= 0, ni <= 0 ==> ri <= 0;
        assert(di < 0 ==> di * (-c) >= -ni > di * (-c) + di) by (nonlinear_arith)
            requires ni == di * qi + ri, abs_int(ri) < abs_int(di),
                c == (if ri != 0 && (ni < 0) == (di < 0) { qi + 1 } else { qi }),
                ni >= 0 ==> ri >= 0, ni <= 0 ==> ri <= 0;
        lemma_floor_div_unique(-ni, di, -c);
    }
    if r != 0 && (n < 0) == (d < 0) {
        q + 1
    } else {
        q
    }
}

pub open spec fn min4(a: int, b: int, c: int, d: int) -> int {
    let ab = if a <= b { a } else { b };
    let cd = if c <= d { c } else { d };
    if ab <= cd { ab } else { cd }
}

pub open spec fn max4(a: int, b: int, c: int, d: int) -> int {
    let ab = if a >= b { a } else { b };
    let cd = if c >= d { c } else { d };
    if ab >= cd { ab } else { cd }
}

/// Smallest and largest corner products, clamped into `i32`.
pub open spec fn mul_bounds_spec(amin: int, amax: int, bmin: int, bmax: int) -> (int, int) {
    (
        clamp_i32_spec(min4(amin * bmin, amin * bmax, amax * bmin, amax * bmax)),
        clamp_i32_spec(max4(amin * bmin, amin * bmax, amax * bmin, amax * bmax)),
    )
}

/// Bounds of `a * b` for `a` in `[amin, amax]` and `b` in `[bmin, bmax]`, clamped into `i32`.
pub fn mul_bounds(amin: i32, amax: i32, bmin: i32, bmax: i32) -> (r: (i32, i32))
    ensures
        r.0 == mul_bounds_spec(amin as int, amax as int, bmin as int, bmax as int).0,
        r.1 == mul_bounds_spec(amin as int, amax as int, bmin as int, bmax as int).1,
{
    proof {
        assert(-0x4000_0000_0000_0000 <= (amin as int) * (bmin as int) <= 0x4000_0000_0000_0000) by (nonlinear_arith)
            requires i32::MIN <= amin <= i32::MAX, i32::MIN <= bmin <= i32::MAX;
        assert(-0x4000_0000_0000_0000 <= (amin as int) * (bmax as int) <= 0x4000_0000_0000_0000) by (nonlinear_arith)
            requires i32::MIN <= amin <= i32::MAX, i32::MIN <= bmax <= i32::MAX;
        assert(-0x4000_0000_0000_0000 <= (amax as int) * (bmin as int) <= 0x4000_0000_0000_0000) by (nonlinear_arith)
            requires i32::MIN <= amax <= i32::MAX, i32::MIN <= bmin <= i32::MAX;
        assert(-0x4000_0000_0000_0000 <= (amax as int) * (bmax as int) <= 0x4000_0000_0000_0000) by (nonlinear_arith)
            requires i32::MIN <= amax <= i32::MAX, i32::MIN <= bmax <= i32::MAX;
    }
    let c0 = amin as i64 * bmin as i64;
    let c1 = amin as i64 * bmax as i64;
    let c2 = amax as i64 * bmin as i64;
    let c3 = amax as i64 * bmax as i64;
    let lo01 = if c0 <= c1 { c0 } else { c1 };
    let lo23 = if c2 <= c3 { c2 } else { c3 };
    let lo = if lo01 <= lo23 { lo01 } else { lo23 };
    let hi01 = if c0 >= c1 { c0 } else { c1 };
    let hi23 = if c2 >= c3 { c2 } else { c3 };
    let hi = if hi01 >= hi23 { hi01 } else { hi23 };
    (clamp_i32(lo), clamp_i32(hi))
}

/// Bounds on `factor` such that `factor * fixed` can land in `[cmin, cmax]`, clamped
/// into `i32`; `None` when `fixed` is zero or no integer factor fits.
pub open spec fn factor_bounds_spec(cmin: int, cmax: int, fixed: int) -> Option<(int, int)> {
    if fixed == 0 {
        None
    } else {
        let lo = if fixed > 0 { ceil_div_spec(cmin, fixed) } else { ceil_div_spec(cmax, fixed) };
        let hi = if fixed > 0 { floor_div_spec(cmax, fixed) } else { floor_div_spec(cmin, fixed) };
        if lo > hi {
            None
        } else {
            Some((clamp_i32_spec(lo), clamp_i32_spec(hi)))
        }
    }
}

/// The factor domain `f` lies within the quotients of the bounds of the product
/// domain `c` by the non-zero `fixed` other factor.
pub open spec fn factor_cut(f: Set<int>, c: Set<int>, fixed: int) -> bool {
    match factor_bounds_spec(least(c), greatest(c), fixed) {
        Some((lo, hi)) => within(f, lo, hi),
        None => false,
    }
}

/// Bounds on `factor` such that `factor * fixed` can land in `[cmin, cmax]`.
pub fn factor_bounds_from_product(cmin: i32, cmax: i32, fixed: i32) -> (r: Option<(i32, i32)>)
    ensures
        match factor_bounds_spec(cmin as int, cmax as int, fixed as int) {
            Some((lo, hi)) => r == Some((lo as i32, hi as i32)),
            None => r is None,
        },
{
    if fixed == 0 {
        return None;
    }
    let cmin = cmin as i64;
    let cmax = cmax as i64;
    let fixed = fixed as i64;
    let (lo, hi) = if fixed > 0 {
        (ceil_div(cmin, fixed), floor_div(cmax, fixed))
    } else {
        (ceil_div(cmax, fixed), floor_div(cmin, fixed))
    };
    if lo > hi {
        None
    } else {
        Some((clamp_i32(lo), clamp_i32(hi)))
    }
}

/// Every product of factors within their bounds lies within `mul_bounds` (before clamping).
pub proof fn lemma_mul_bounds_sound(amin: int, amax: int, bmin: int, bmax: int, a: int, b: int)
    requires
        amin <= a <= amax,
        bmin <= b <= bmax,
    ensures
        min4(amin * bmin, amin * bmax, amax * bmin, amax * bmax) <= a * b
            <= max4(amin * bmin, amin * bmax, amax * bmin, amax * bmax),
{
    // a*b is bilinear: on a box its extrema are at the corners.
    assert(min4(amin * b, amax * b, amin * b, amax * b) <= a * b <= max4(amin * b, amax * b, amin * b, amax * b)) by (nonlinear_arith)
        requires amin <= a <= amax;
    assert(min4(amin * bmin, amin * bmax, amin * bmin, amin * bmax) <= amin * b <= max4(amin * bmin, amin * bmax, amin * bmin, amin * bmax)) by (nonlinear_arith)
        requires bmin <= b <= bmax;
    assert(min4(amax * bmin, amax * bmax, amax * bmin, amax * bmax) <= amax * b <= max4(amax * bmin, amax * bmax, amax * bmin, amax * bmax)) by (nonlinear_arith)
        requires bmin <= b <= bmax;
}

/// Every factor whose product with `fixed` lands in `[cmin, cmax]` lies within the
/// unclamped bounds of `factor_bounds_spec`, and no such factor exists when it is `None`.
pub proof fn lemma_factor_bounds_sound(cmin: int, cmax: int, fixed: int, factor: int)
    requires
        fixed != 0,
        cmin <= factor * fixed <= cmax,
    ensures
        factor_bounds_spec(cmin, cmax, fixed) is Some,
        fixed > 0 ==> ceil_div_spec(cmin, fixed) <= factor <= floor_div_spec(cmax, fixed),
        fixed < 0 ==> ceil_div_spec(cmax, fixed) <= factor <= floor_div_spec(cmin, fixed),
{
    lemma_ceil_div_props(cmin, fixed);
    lemma_ceil_div_props(cmax, fixed);
    lemma_floor_div_props(cmin, fixed);
    lemma_floor_div_props(cmax, fixed);
    if fixed > 0 {
        let lo = ceil_div_spec(cmin, fixed);
        let hi = floor_div_spec(cmax, fixed);
        assert(lo <= factor) by (nonlinear_arith)
            requires fixed > 0, fixed * lo - fixed < cmin, cmin <= factor * fixed;
        assert(factor <= hi) by (nonlinear_arith)
            requires fixed > 0, cmax < fixed * hi + fixed, factor * fixed <= cmax;
    } else {
        let lo = ceil_div_spec(cmax, fixed);
        let hi = floor_div_spec(cmin, fixed);
        assert(lo <= factor) by (nonlinear_arith)
            requires fixed < 0, fixed * lo - fixed > cmax, factor * fixed <= cmax;
        assert(factor <= hi) by (nonlinear_arith)
            requires fixed < 0, cmin > fixed * hi + fixed, cmin <= factor * fixed;
    }
}

/// The constraint `c = a * b` on the variables at `ai`, `bi` and `ci`.
pub open spec fn times_holds(ai: int, bi: int, ci: int) -> spec_fn(Seq<int>) -> bool {
    |sigma: Seq<int>| sigma[ci] == sigma[ai] * sigma[bi]
}

/// Propagates `c = a * b` with bound consistency.
pub struct IntTimesPropagator {
    /// First factor.
    pub a: VariableId,
    /// Second factor.
    pub b: VariableId,
    /// Product.
    pub c: VariableId,
}

/// The domain holds exactly zero.
fn is_fixed_zero(store: &DomainStore, v: VariableId) -> (r: bool)
    requires
        v.index < store@.len(),
    ensures
        r == (store@[v.index as int] == set![0int]),
{
    match (store.min(v), store.max(v)) {
        (Some(lo), Some(hi)) => {
            let r = lo == 0 && hi == 0;
            proof {
                if r {
                    assert(store@[v.index as int] =~= set![0int]);
                } else if store@[v.index as int] == set![0int] {
                    assert(store@[v.index as int].contains(lo as int));
                    assert(store@[v.index as int].contains(hi as int));
                }
            }
            r
        },
        _ => {
            proof {
                if store@[v.index as int] == set![0int] {
                    assert(store@[v.index as int].contains(0));
                }
            }
            false
        },
    }
}

proof fn lemma_zero_product(x: int, y: int)
    ensures
        x * 0 == 0,
        0 * y == 0,
        x != 0 && y != 0 ==> x * y != 0,
{
    assert(x * 0 == 0) by (nonlinear_arith);
    assert(0 * y == 0) by (nonlinear_arith);
    assert(x != 0 && y != 0 ==> x * y != 0) by (nonlinear_arith);
}

/// A value inside `lo..=hi` that fits in `i32` stays inside after clamping the bounds.
proof fn lemma_clamp_keeps(lo: int, hi: int, v: int)
    requires
        lo <= v <= hi,
        i32::MIN <= v <= i32::MAX,
    ensures
        clamp_i32_spec(lo) <= v <= clamp_i32_spec(hi),
{
}

/// No solution of `c = a * b` is left when a factor's domain is `{0}` and the product's
/// domain excludes zero.
proof fn lemma_zero_factor_unsat(
    s0: Seq<Set<int>>,
    s: Seq<Set<int>>,
    ai: int,
    bi: int,
    ci: int,
    changed: bool,
    w: Set<int>,
    cmin: int,
    cmax: int,
)
    requires
        progress(s0, s, times_holds(ai, bi, ci), changed, w),
        0 <= ai < s.len(),
        0 <= bi < s.len(),
        0 <= ci < s.len(),
        within(s[ci], cmin, cmax),
        cmin > 0 || cmax < 0,
        within(s[ai], 0, 0) || within(s[bi], 0, 0),
        w == set![ai, bi, ci],
    ensures
        !has_solution(s0, times_holds(ai, bi, ci)),
        !has_solution_on(s0, times_holds(ai, bi, ci), w),
{
    let cons = times_holds(ai, bi, ci);
    lemma_progress_facts(s0, s, cons, changed, w);
    if has_solution(s0, cons) {
        let sigma = choose|sigma: Seq<int>| assignment_in(s0, sigma) && #[trigger] cons(sigma);
        assert(assignment_in(s, sigma));
        assert(s[ai].contains(sigma[ai]));
        assert(s[bi].contains(sigma[bi]));
        assert(s[ci].contains(sigma[ci]));
        lemma_zero_product(sigma[ai], sigma[bi]);
    }
    if has_solution_on(s0, cons, w) {
        let sigma = choose|sigma: Seq<int>| assignment_on(s0, sigma, w) && #[trigger] cons(sigma);
        assert(assignment_on(s, sigma, w));
        assert(w.contains(ai) && w.contains(bi) && w.contains(ci));
        assert(s[ai].contains(sigma[ai]));
        assert(s[bi].contains(sigma[bi]));
        assert(s[ci].contains(sigma[ci]));
        lemma_zero_product(sigma[ai], sigma[bi]);
    }
}

/// No solution is left when a factor is fixed at `fixed` and no quotient of the
/// product's bounds by `fixed` exists.
proof fn lemma_no_quotient_unsat(
    s0: Seq<Set<int>>,
    s: Seq<Set<int>>,
    ai: int,
    bi: int,
    ci: int,
    changed: bool,
    w: Set<int>,
    cmin: int,
    cmax: int,
    fixed: int,
    first: bool,
)
    requires
        progress(s0, s, times_holds(ai, bi, ci), changed, w),
        0 <= ai < s.len(),
        0 <= bi < s.len(),
        0 <= ci < s.len(),
        within(s[ci], cmin, cmax),
        fixed != 0,
        first ==> s[ai] == set![fixed],
        !first ==> s[bi] == set![fixed],
        factor_bounds_spec(cmin, cmax, fixed) is None,
        w == set![ai, bi, ci],
    ensures
        !has_solution(s0, times_holds(ai, bi, ci)),
        !has_solution_on(s0, times_holds(ai, bi, ci), w),
{
    let cons = times_holds(ai, bi, ci);
    lemma_progress_facts(s0, s, cons, changed, w);
    if has_solution(s0, cons) {
        let sigma = choose|sigma: Seq<int>| assignment_in(s0, sigma) && #[trigger] cons(sigma);
        assert(assignment_in(s, sigma));
        assert(s[ai].contains(sigma[ai]));
        assert(s[bi].contains(sigma[bi]));
        assert(s[ci].contains(sigma[ci]));
        if first {
            assert(sigma[ai] * sigma[bi] == sigma[bi] * sigma[ai]) by (nonlinear_arith);
            lemma_factor_bounds_sound(cmin, cmax, fixed, sigma[bi]);
        } else {
            lemma_factor_bounds_sound(cmin, cmax, fixed, sigma[ai]);
        }
    }
    if has_solution_on(s0, cons, w) {
        let sigma = choose|sigma: Seq<int>| assignment_on(s0, sigma, w) && #[trigger] cons(sigma);
        assert(assignment_on(s, sigma, w));
        assert(w.contains(ai) && w.contains(bi) && w.contains(ci));
        assert(s[ai].contains(sigma[ai]));
        assert(s[bi].contains(sigma[bi]));
        assert(s[ci].contains(sigma[ci]));
        if first {
            assert(sigma[ai] * sigma[bi] == sigma[bi] * sigma[ai]) by (nonlinear_arith);
            lemma_factor_bounds_sound(cmin, cmax, fixed, sigma[bi]);
        } else {
            lemma_factor_bounds_sound(cmin, cmax, fixed, sigma[ai]);
        }
    }
}

/// Every solution that `s` still holds has its product between the clamped corner
/// products of the factors' bounds.
proof fn lemma_product_cut(
    s0: Seq<Set<int>>,
    s: Seq<Set<int>>,
    ai: int,
    bi: int,
    ci: int,
    changed: bool,
    w: Set<int>,
    amin: int,
    amax: int,
    bmin: int,
    bmax: int,
)
    requires
        progress(s0, s, times_holds(ai, bi, ci), changed, w),
        0 <= ai < s.len(),
        0 <= bi < s.len(),
        0 <= ci < s.len(),
        forall|i: int| 0 <= i < s0.len() ==> in_i32_range(#[trigger] s0[i]),
        within(s[ai], amin, amax),
        within(s[bi], bmin, bmax),
        w == set![ai, bi, ci],
    ensures
        forall|sigma: Seq<int>|
            assignment_on(s, sigma, w) && #[trigger] times_holds(ai, bi, ci)(sigma) ==> mul_bounds_spec(amin, amax, bmin, bmax).0
                <= sigma[ci] <= mul_bounds_spec(amin, amax, bmin, bmax).1,
{
    let cons = times_holds(ai, bi, ci);
    lemma_progress_facts(s0, s, cons, changed, w);
    assert(w.contains(ai) && w.contains(bi) && w.contains(ci));
    assert forall|sigma: Seq<int>| assignment_on(s, sigma, w) && #[trigger] cons(sigma) implies mul_bounds_spec(
        amin,
        amax,
        bmin,
        bmax,
    ).0 <= sigma[ci] <= mul_bounds_spec(amin, amax, bmin, bmax).1 by {
        assert(s[ai].contains(sigma[ai]));
        assert(s[bi].contains(sigma[bi]));
        assert(s[ci].contains(sigma[ci]));
        assert(s[ci].subset_of(s0[ci]));
        assert(s0[ci].contains(sigma[ci]));
        assert(in_i32_range(s0[ci]));
        lemma_mul_bounds_sound(amin, amax, bmin, bmax, sigma[ai], sigma[bi]);
        lemma_clamp_keeps(
            min4(amin * bmin, amin * bmax, amax * bmin, amax * bmax),
            max4(amin * bmin, amin * bmax, amax * bmin, amax * bmax),
            sigma[ci],
        );
    }
}

/// The factors' bounds read after the zero steps: they bound the current domains, and
/// when the product is a third variable they are the bounds of the original domains.
proof fn lemma_bounds_read(
    s0: Seq<Set<int>>,
    s: Seq<Set<int>>,
    ai: int,
    bi: int,
    ci: int,
    changed: bool,
    w: Set<int>,
    amin: int,
    amax: int,
    bmin: int,
    bmax: int,
)
    requires
        progress(s0, s, times_holds(ai, bi, ci), changed, w),
        w == set![ai, bi, ci],
        0 <= ai < s.len(),
        0 <= bi < s.len(),
        0 <= ci < s.len(),
        crate::domain::is_least(s[ai], amin),
        crate::domain::is_greatest(s[ai], amax),
        crate::domain::is_least(s[bi], bmin),
        crate::domain::is_greatest(s[bi], bmax),
        ci != ai && ci != bi ==> s[ai] == s0[ai] && s[bi] == s0[bi],
    ensures
        within(s[ai], amin, amax),
        within(s[bi], bmin, bmax),
        ci != ai && ci != bi ==> least(s0[ai]) == amin && greatest(s0[ai]) == amax && least(s0[bi]) == bmin
            && greatest(s0[bi]) == bmax,
{
    if ci != ai && ci != bi {
        lemma_least_is(s0[ai], amin);
        lemma_greatest_is(s0[ai], amax);
        lemma_least_is(s0[bi], bmin);
        lemma_greatest_is(s0[bi], bmax);
    }
}

impl IntTimesPropagator {
    /// Creates a propagator for `c = a * b`.
    pub fn new(a: VariableId, b: VariableId, c: VariableId) -> (p: Self)
        ensures
            p.a == a,
            p.b == b,
            p.c == c,
    {
        IntTimesPropagator { a, b, c }
    }

    /// The variables whose domains this propagator reads.
    pub fn watched_variables(&self) -> (w: Vec<VariableId>)
        ensures
            w@ == seq![self.a, self.b, self.c],
    {
        let w = vec![self.a, self.b, self.c];
        proof {
            assert(w@ =~= seq![self.a, self.b, self.c]);
        }
        w
    }

    /// A factor fixed at zero pins the product to zero; the product is cut to the corner
    /// products of the factors' bounds; a product without zero removes zero from the
    /// factors; a factor fixed at a non-zero value cuts the other factor to the
    /// quotients of the product's bounds. No solution of `c = a * b` is lost, and it
    /// fails only when there is none. For three distinct variables a run that does not
    /// fail leaves exactly [`times_outcome`] of the entry store.
    pub fn propagate(&mut self, store: &mut DomainStore) -> (status: PropagationStatus)
        requires
            old(self).a.index < old(store)@.len(),
            old(self).b.index < old(store)@.len(),
            old(self).c.index < old(store)@.len(),
        ensures
            *final(self) == *old(self),
            narrows(old(store)@, final(store)@),
            forall|k: int|
                0 <= k < old(store)@.len() && k != old(self).a.index && k != old(self).b.index && k != old(self).c.index
                    ==> #[trigger] final(store)@[k] == old(store)@[k],
            keeps(
                old(store)@,
                final(store)@,
                times_holds(old(self).a.index as int, old(self).b.index as int, old(self).c.index as int),
            ),
            status == PropagationStatus::Failure ==> !has_solution(
                old(store)@,
                times_holds(old(self).a.index as int, old(self).b.index as int, old(self).c.index as int),
            ),
            keeps_on(old(store)@, final(store)@, times_holds(old(self).a.index as int, old(self).b.index as int, old(self).c.index as int), set![old(self).a.index as int, old(self).b.index as int, old(self).c.index as int]),
            status == PropagationStatus::Failure ==> !has_solution_on(old(store)@, times_holds(old(self).a.index as int, old(self).b.index as int, old(self).c.index as int), set![old(self).a.index as int, old(self).b.index as int, old(self).c.index as int]),
            status != PropagationStatus::Failure ==> {
                let a0 = old(store)@[old(self).a.index as int];
                let b0 = old(store)@[old(self).b.index as int];
                let c1 = final(store)@[old(self).c.index as int];
                let product = mul_bounds_spec(least(a0), greatest(a0), least(b0), greatest(b0));
                &&& !final(store)@[old(self).a.index as int].is_empty()
                &&& !final(store)@[old(self).b.index as int].is_empty()
                &&& !c1.is_empty()
                &&& (status == PropagationStatus::OkChanged) == (final(store)@ != old(store)@)
                &&& (old(self).c.index != old(self).a.index && old(self).c.index != old(self).b.index)
                    ==> within(c1, product.0, product.1)
            },
            status != PropagationStatus::Failure && old(self).a.index != old(self).b.index && old(self).c.index
                != old(self).a.index && old(self).c.index != old(self).b.index ==> {
                &&& is_fixed(old(store)@[old(self).a.index as int]) && least(old(store)@[old(self).a.index as int]) != 0
                    ==> factor_cut(
                    final(store)@[old(self).b.index as int],
                    final(store)@[old(self).c.index as int],
                    least(old(store)@[old(self).a.index as int]),
                )
                &&& is_fixed(old(store)@[old(self).b.index as int]) && least(old(store)@[old(self).b.index as int]) != 0
                    ==> factor_cut(
                    final(store)@[old(self).a.index as int],
                    final(store)@[old(self).c.index as int],
                    least(old(store)@[old(self).b.index as int]),
                )
            },
            status != PropagationStatus::Failure && old(self).a.index != old(self).b.index && old(self).c.index
                != old(self).a.index && old(self).c.index != old(self).b.index && (least(
                final(store)@[old(self).c.index as int],
            ) > 0 || greatest(final(store)@[old(self).c.index as int]) < 0) ==> {
                &&& least(old(store)@[old(self).a.index as int]) == 0 ==> !final(store)@[old(self).a.index as int].contains(0)
                &&& least(old(store)@[old(self).b.index as int]) == 0 ==> !final(store)@[old(self).b.index as int].contains(0)
            },
            status != PropagationStatus::Failure && old(self).a.index != old(self).b.index && old(self).c.index
                != old(self).a.index && old(self).c.index != old(self).b.index ==> final(store)@ == times_outcome(
                old(store)@,
                old(self).a.index as int,
                old(self).b.index as int,
                old(self).c.index as int,
            ),
    {
        let ghost s0 = store@;
        let status = self.propagate_bounds(store);
        proof {
            let ai = self.a.index as int;
            let bi = self.b.index as int;
            let ci = self.c.index as int;
            if status != PropagationStatus::Failure && ai != bi && ci != ai && ci != bi {
                if is_fixed(s0[ai]) {
                    let v = choose|v: int| s0[ai] == set![v];
                    lemma_least_is(s0[ai], v);
                    if v != 0 {
                        assert(factor_cut(store@[bi], store@[ci], v));
                    }
                }
                if is_fixed(s0[bi]) {
                    let v = choose|v: int| s0[bi] == set![v];
                    lemma_least_is(s0[bi], v);
                    if v != 0 {
                        assert(factor_cut(store@[ai], store@[ci], v));
                    }
                }
            }
        }
        status
    }

    /// [`IntTimesPropagator::propagate`] stated over assignments of the whole store.
    fn propagate_bounds(&mut self, store: &mut DomainStore) -> (status: PropagationStatus)
        requires
            old(self).a.index < old(store)@.len(),
            old(self).b.index < old(store)@.len(),
            old(self).c.index < old(store)@.len(),
        ensures
            *final(self) == *old(self),
            narrows(old(store)@, final(store)@),
            forall|k: int|
                0 <= k < old(store)@.len() && k != old(self).a.index && k != old(self).b.index && k != old(self).c.index
                    ==> #[trigger] final(store)@[k] == old(store)@[k],
            keeps(
                old(store)@,
                final(store)@,
                times_holds(old(self).a.index as int, old(self).b.index as int, old(self).c.index as int),
            ),
            status == PropagationStatus::Failure ==> !has_solution(
                old(store)@,
                times_holds(old(self).a.index as int, old(self).b.index as int, old(self).c.index as int),
            ),
            keeps_on(old(store)@, final(store)@, times_holds(old(self).a.index as int, old(self).b.index as int, old(self).c.index as int), set![old(self).a.index as int, old(self).b.index as int, old(self).c.index as int]),
            status == PropagationStatus::Failure ==> !has_solution_on(old(store)@, times_holds(old(self).a.index as int, old(self).b.index as int, old(self).c.index as int), set![old(self).a.index as int, old(self).b.index as int, old(self).c.index as int]),
            status != PropagationStatus::Failure ==> {
                let a0 = old(store)@[old(self).a.index as int];
                let b0 = old(store)@[old(self).b.index as int];
                let c1 = final(store)@[old(self).c.index as int];
                let product = mul_bounds_spec(least(a0), greatest(a0), least(b0), greatest(b0));
                &&& !final(store)@[old(self).a.index as int].is_empty()
                &&& !final(store)@[old(self).b.index as int].is_empty()
                &&& !c1.is_empty()
                &&& (status == PropagationStatus::OkChanged) == (final(store)@ != old(store)@)
                &&& (old(self).c.index != old(self).a.index && old(self).c.index != old(self).b.index)
                    ==> within(c1, product.0, product.1)
            },
            status != PropagationStatus::Failure && old(self).a.index != old(self).b.index && old(self).c.index
                != old(self).a.index && old(self).c.index != old(self).b.index ==> {
                &&& forall|af: int|
                    old(store)@[old(self).a.index as int] == set![af] && af != 0 ==> #[trigger] factor_cut(
                        final(store)@[old(self).b.index as int],
                        final(store)@[old(self).c.index as int],
                        af,
                    )
                &&& forall|bf: int|
                    old(store)@[old(self).b.index as int] == set![bf] && bf != 0 ==> #[trigger] factor_cut(
                        final(store)@[old(self).a.index as int],
                        final(store)@[old(self).c.index as int],
                        bf,
                    )
            },
            status != PropagationStatus::Failure && old(self).a.index != old(self).b.index && old(self).c.index
                != old(self).a.index && old(self).c.index != old(self).b.index && (least(
                final(store)@[old(self).c.index as int],
            ) > 0 || greatest(final(store)@[old(self).c.index as int]) < 0) ==> {
                &&& least(old(store)@[old(self).a.index as int]) == 0 ==> !final(store)@[old(self).a.index as int].contains(0)
                &&& least(old(store)@[old(self).b.index as int]) == 0 ==> !final(store)@[old(self).b.index as int].contains(0)
            },
            status != PropagationStatus::Failure && old(self).a.index != old(self).b.index && old(self).c.index
                != old(self).a.index && old(self).c.index != old(self).b.index ==> final(store)@ == times_outcome(
                old(store)@,
                old(self).a.index as int,
                old(self).b.index as int,
                old(self).c.index as int,
            ),
    {
        let a = self.a;
        let b = self.b;
        let c = self.c;
        let ghost ai = a.index as int;
        let ghost bi = b.index as int;
        let ghost ci = c.index as int;
        let ghost cons = times_holds(ai, bi, ci);
        let ghost w = set![ai, bi, ci];
        let ghost s0 = store@;
        store.assert_in_range();
        proof {
            lemma_progress_start(s0, cons, w);
        }
        if store.is_empty(a) || store.is_empty(b) || store.is_empty(c) {
            proof {
                if s0[ai].is_empty() {
                    lemma_progress_empty(s0, s0, cons, false, w, ai);
                } else if s0[bi].is_empty() {
                    lemma_progress_empty(s0, s0, cons, false, w, bi);
                } else {
                    lemma_progress_empty(s0, s0, cons, false, w, ci);
                }
            }
            return PropagationStatus::Failure;
        }
        let mut changed = false;
        proof {
            assert(w == set![ai, bi, ci]);
        }
        let ghost dist3 = ai != bi && ci != ai && ci != bi;
        // A zero factor makes the product zero.
        if is_fixed_zero(store, a) {
            proof {
                let s = store@;
                assert forall|sigma: Seq<int>| assignment_on(s, sigma, w) && #[trigger] cons(sigma) implies 0 <= sigma[ci] <= 0 by {
                    assert(s[ai].contains(sigma[ai]));
                    lemma_zero_product(sigma[ai], sigma[bi]);
                }
            }
            let ghost before = store@;
            changed = restrict_step(store, c, 0, 0, Ghost(s0), Ghost(cons), Ghost(w), changed);
            proof {
                if ci != ai && ci != bi {
                    assert(store@[ai] == before[ai] && store@[bi] == before[bi]);
                }
            }
        }
        let ghost z1 = store@;
        proof {
            if dist3 {
                assert(z1 == zero_factor_cut(s0, ai, ci));
            }
        }
        if is_fixed_zero(store, b) {
            proof {
                let s = store@;
                assert forall|sigma: Seq<int>| assignment_on(s, sigma, w) && #[trigger] cons(sigma) implies 0 <= sigma[ci] <= 0 by {
                    assert(s[bi].contains(sigma[bi]));
                    lemma_zero_product(sigma[ai], sigma[bi]);
                }
            }
            let ghost before = store@;
            changed = restrict_step(store, c, 0, 0, Ghost(s0), Ghost(cons), Ghost(w), changed);
            proof {
                if ci != ai && ci != bi {
                    assert(store@[ai] == before[ai] && store@[bi] == before[bi]);
                }
            }
        }
        let ghost s3 = store@;
        let (amin, amax, bmin, bmax) = match (store.min(a), store.max(a), store.min(b), store.max(b)) {
            (Some(x1), Some(x2), Some(x3), Some(x4)) => (x1, x2, x3, x4),
            _ => {
                proof {
                    if s3[ai].is_empty() {
                        lemma_progress_empty(s0, s3, cons, changed, w, ai);
                    } else {
                        lemma_progress_empty(s0, s3, cons, changed, w, bi);
                    }
                }
                return PropagationStatus::Failure;
            },
        };
        proof {
            lemma_bounds_read(s0, s3, ai, bi, ci, changed, w, amin as int, amax as int, bmin as int, bmax as int);
            lemma_least_is(s3[ai], amin as int);
            lemma_greatest_is(s3[ai], amax as int);
            lemma_least_is(s3[bi], bmin as int);
            lemma_greatest_is(s3[bi], bmax as int);
            if dist3 {
                assert(s3 == zero_factor_cut(z1, bi, ci));
            }
        }
        // The product lies between the corner products.
        let (pmin, pmax) = mul_bounds(amin, amax, bmin, bmax);
        proof {
            lemma_mul_bounds_sound(amin as int, amax as int, bmin as int, bmax as int, amin as int, bmin as int);
        }
        if pmin > pmax {
            return PropagationStatus::Failure;
        }
        proof {
            lemma_product_cut(s0, s3, ai, bi, ci, changed, w, amin as int, amax as int, bmin as int, bmax as int);
        }
        changed = restrict_step(store, c, pmin, pmax, Ghost(s0), Ghost(cons), Ghost(w), changed);
        let ghost s4 = store@;
        proof {
            assert(within(s4[ci], pmin as int, pmax as int));
            lemma_within_after_cut(s3, ci, between(s3[ci], pmin as int, pmax as int), ai, amin as int, amax as int);
            lemma_within_after_cut(s3, ci, between(s3[ci], pmin as int, pmax as int), bi, bmin as int, bmax as int);
        }
        let status = finish_times(store, a, b, c, amin, amax, bmin, bmax, Ghost(s0), changed);
        proof {
            if ai != bi && ci != ai && ci != bi {
                assert(s4[ai] == s0[ai] && s4[bi] == s0[bi]);
                lemma_least_is(s0[ai], amin as int);
                lemma_least_is(s0[bi], bmin as int);
            }
            lemma_progress_facts(s0, store@, cons, store@ != s0, w);
            lemma_within_subset(store@[ci], s4[ci], pmin as int, pmax as int);
            if dist3 && status != PropagationStatus::Failure {
                assert(s4 == s3.update(ci, between(s3[ci], pmin as int, pmax as int)));
                assert(store@ == times_finish_outcome(s4, ai, bi, ci, amin as int, bmin as int));
                assert(store@ == times_outcome(s0, ai, bi, ci));
            }
        }
        status
    }
}

/// A domain of `s4` holding the single non-zero value `x` still holds exactly `x` in `s`.
pub open spec fn fixed_kept(s4: Seq<Set<int>>, s: Seq<Set<int>>, i: int) -> bool {
    forall|x: int| s4[i] == set![x] && x != 0 ==> #[trigger] s[i] == set![x]
}

/// Removing zero from one domain keeps every non-zero fixed domain.
proof fn lemma_remove_zero_step(s4: Seq<Set<int>>, s: Seq<Set<int>>, t: Seq<Set<int>>, i: int, k: int)
    requires
        0 <= i < s.len(),
        0 <= k < s.len(),
        fixed_kept(s4, s, k),
        t == s.update(i, s[i].remove(0)),
    ensures
        fixed_kept(s4, t, k),
{
    assert forall|x: int| s4[k] == set![x] && x != 0 implies #[trigger] t[k] == set![x] by {
        if k == i {
            assert(s[i].remove(0) =~= set![x]);
        }
    }
}

/// `s` with the product at `ci` cut to zero when the factor at `fi` is fixed at zero.
pub open spec fn zero_factor_cut(s: Seq<Set<int>>, fi: int, ci: int) -> Seq<Set<int>> {
    if s[fi] == set![0int] { s.update(ci, between(s[ci], 0, 0)) } else { s }
}

/// `s` with zero removed from the factor at `fi` when `cond` holds.
pub open spec fn zero_free_cut(s: Seq<Set<int>>, fi: int, cond: bool) -> Seq<Set<int>> {
    if cond { s.update(fi, s[fi].remove(0)) } else { s }
}

/// `s` with the factor at `oi` cut to the quotients of `[cmin, cmax]` by the factor at
/// `fi`, when that one is fixed at a non-zero value and some quotient fits.
pub open spec fn fixed_factor_cut(s: Seq<Set<int>>, fi: int, oi: int, cmin: int, cmax: int) -> Seq<Set<int>> {
    if is_fixed(s[fi]) && least(s[fi]) != 0 {
        match factor_bounds_spec(cmin, cmax, least(s[fi])) {
            Some((lo, hi)) => s.update(oi, between(s[oi], lo, hi)),
            None => s,
        }
    } else {
        s
    }
}

/// The store after the steps that follow the product cut, on the store `s` reached by
/// it: zero leaves a factor whose least value is zero (`amin`, `bmin`) when the product
/// excludes zero; then a fixed non-zero `a` cuts `b`, and a fixed non-zero `b` cuts `a`,
/// to the quotients of the product's bounds.
pub open spec fn times_finish_outcome(s: Seq<Set<int>>, ai: int, bi: int, ci: int, amin: int, bmin: int) -> Seq<Set<int>> {
    let cmin = least(s[ci]);
    let cmax = greatest(s[ci]);
    let t5 = if cmin > 0 || cmax < 0 {
        zero_free_cut(zero_free_cut(s, ai, amin == 0), bi, bmin == 0)
    } else {
        s
    };
    let t6 = fixed_factor_cut(t5, ai, bi, cmin, cmax);
    fixed_factor_cut(t6, bi, ai, least(t6[ci]), greatest(t6[ci]))
}

/// The store after one propagation of `c = a * b` on `s`: `c` cut to zero by a factor
/// fixed at zero, then to the corner products of the factors' bounds, then the steps of
/// [`times_finish_outcome`].
pub open spec fn times_outcome(s: Seq<Set<int>>, ai: int, bi: int, ci: int) -> Seq<Set<int>> {
    let z = zero_factor_cut(zero_factor_cut(s, ai, ci), bi, ci);
    let p = mul_bounds_spec(least(z[ai]), greatest(z[ai]), least(z[bi]), greatest(z[bi]));
    let t4 = z.update(ci, between(z[ci], p.0, p.1));
    times_finish_outcome(t4, ai, bi, ci, least(z[ai]), least(z[bi]))
}

/// Facts shared by the two fixed-factor cuts of [`finish_times`].
pub open spec fn cut_ready(
    s0: Seq<Set<int>>,
    s4: Seq<Set<int>>,
    s: Seq<Set<int>>,
    a: VariableId,
    b: VariableId,
    c: VariableId,
    cmin: int,
    cmax: int,
    changed: bool,
) -> bool {
    let (ai, bi, ci) = (a.index as int, b.index as int, c.index as int);
    &&& ai < s.len() && bi < s.len() && ci < s.len()
    &&& progress(s0, s, times_holds(ai, bi, ci), changed, set![ai, bi, ci])
    &&& forall|i: int| 0 <= i < s0.len() ==> in_i32_range(#[trigger] s0[i])
    &&& within(s[ci], cmin, cmax)
    &&& (ai != bi && ci != ai && ci != bi) ==> s[ci] == s4[ci] && crate::domain::is_least(s4[ci], cmin)
        && crate::domain::is_greatest(s4[ci], cmax)
}

/// When `a` holds a single non-zero value, cuts `b` to the quotients of the product's
/// bounds `[cmin, cmax]`; `None` (store unchanged) when no factor fits.
fn cut_by_fixed_a(
    store: &mut DomainStore,
    a: VariableId,
    b: VariableId,
    c: VariableId,
    cmin: i32,
    cmax: i32,
    Ghost(s0): Ghost<Seq<Set<int>>>,
    Ghost(s4): Ghost<Seq<Set<int>>>,
    changed: bool,
) -> (r: Option<bool>)
    requires
        cut_ready(s0, s4, old(store)@, a, b, c, cmin as int, cmax as int, changed),
        fixed_kept(s4, old(store)@, a.index as int),
        fixed_kept(s4, old(store)@, b.index as int),
    ensures
        narrows(old(store)@, final(store)@),
        forall|k: int| 0 <= k < old(store)@.len() && k != b.index ==> #[trigger] final(store)@[k] == old(store)@[k],
        r is None ==> final(store)@ == old(store)@ && !has_solution(s0, times_holds(a.index as int, b.index as int, c.index as int)),
        r is None ==> !has_solution_on(s0, times_holds(a.index as int, b.index as int, c.index as int), set![a.index as int, b.index as int, c.index as int]),
        r matches Some(ch) ==> cut_ready(s0, s4, final(store)@, a, b, c, cmin as int, cmax as int, ch),
        forall|x: int| s4[b.index as int] == set![x] && x != 0 ==> #[trigger] final(store)@[b.index as int].subset_of(set![x]),
        r is Some && a.index != b.index && c.index != a.index && c.index != b.index ==> forall|x: int|
            s4[a.index as int] == set![x] && x != 0 ==> #[trigger] factor_cut(final(store)@[b.index as int], s4[c.index as int], x),
        r is Some ==> final(store)@ == fixed_factor_cut(old(store)@, a.index as int, b.index as int, cmin as int, cmax as int),
{
    let ghost ai = a.index as int;
    let ghost bi = b.index as int;
    let ghost ci = c.index as int;
    let ghost cons = times_holds(ai, bi, ci);
    let ghost w = set![ai, bi, ci];
    let ghost dist3 = ai != bi && ci != ai && ci != bi;
    let ghost sa0 = store@;
    let mut changed = changed;
    proof {
        if forall|v: int| sa0[ai] != set![v] {
            assert(!is_fixed(sa0[ai]));
        }
    }
    if let Some(af) = store.fixed_value(a) {
        proof {
            assert(is_fixed(sa0[ai]));
            assert(crate::domain::is_least(sa0[ai], af as int));
            lemma_least_is(sa0[ai], af as int);
        }
        if af != 0 {
            match factor_bounds_from_product(cmin, cmax, af) {
                Some((lo, hi)) => {
                    proof {
                        let s = store@;
                        assert forall|sigma: Seq<int>| assignment_on(s, sigma, w) && #[trigger] cons(sigma) implies lo
                            <= sigma[bi] <= hi by {
                            assert(s[ai].contains(sigma[ai]));
                            assert(s[ci].contains(sigma[ci]));
                            lemma_progress_facts(s0, s, cons, changed, w);
                            crate::solutions::lemma_assignment_on_narrows(s0, s, sigma, w);
                            assert(s0[bi].contains(sigma[bi]));
                            assert(in_i32_range(s0[bi]));
                            assert(sigma[ai] * sigma[bi] == sigma[bi] * sigma[ai]) by (nonlinear_arith);
                            lemma_factor_bounds_sound(cmin as int, cmax as int, af as int, sigma[bi]);
                        }
                    }
                    changed = restrict_step(store, b, lo, hi, Ghost(s0), Ghost(cons), Ghost(w), changed);
                    proof {
                        lemma_within_after_cut(sa0, bi, between(sa0[bi], lo as int, hi as int), ci, cmin as int, cmax as int);
                        assert forall|x: int| s4[bi] == set![x] && x != 0 implies #[trigger] store@[bi].subset_of(set![x]) by {
                            assert(sa0[bi] == set![x]);
                        }
                        if dist3 {
                            lemma_least_is(s4[ci], cmin as int);
                            lemma_greatest_is(s4[ci], cmax as int);
                            assert forall|x: int| s4[ai] == set![x] && x != 0 implies #[trigger] factor_cut(store@[bi], s4[ci], x) by {
                                assert(sa0[ai] == set![x]);
                                assert(set![af as int].contains(af as int));
                                assert(x == af);
                            }
                        }
                    }
                },
                None => {
                    proof {
                        lemma_no_quotient_unsat(s0, store@, ai, bi, ci, changed, w, cmin as int, cmax as int, af as int, true);
                    }
                    return None;
                },
            }
        } else {
            proof {
                assert forall|x: int| s4[ai] == set![x] && x != 0 implies false by {
                    assert(sa0[ai] == set![x]);
                    assert(set![x].contains(x));
                }
            }
        }
    } else {
        proof {
            assert forall|x: int| s4[ai] == set![x] && x != 0 implies false by {
                assert(sa0[ai] == set![x]);
            }
        }
    }
    proof {
        assert forall|x: int| s4[bi] == set![x] && x != 0 implies #[trigger] store@[bi].subset_of(set![x]) by {
            assert(sa0[bi] == set![x]);
        }
    }
    Some(changed)
}

/// When `b` holds a single non-zero value, cuts `a` to the quotients of the product's
/// current bounds; `None` (store unchanged) when no factor fits.
fn cut_by_fixed_b(
    store: &mut DomainStore,
    a: VariableId,
    b: VariableId,
    c: VariableId,
    cmin: i32,
    cmax: i32,
    Ghost(s0): Ghost<Seq<Set<int>>>,
    Ghost(s4): Ghost<Seq<Set<int>>>,
    changed: bool,
) -> (r: Option<bool>)
    requires
        cut_ready(s0, s4, old(store)@, a, b, c, cmin as int, cmax as int, changed),
        forall|x: int| s4[b.index as int] == set![x] && x != 0 ==> #[trigger] old(store)@[b.index as int].subset_of(set![x]),
    ensures
        narrows(old(store)@, final(store)@),
        forall|k: int| 0 <= k < old(store)@.len() && k != a.index ==> #[trigger] final(store)@[k] == old(store)@[k],
        r is None ==> final(store)@ == old(store)@ && !has_solution(s0, times_holds(a.index as int, b.index as int, c.index as int)),
        r is None ==> !has_solution_on(s0, times_holds(a.index as int, b.index as int, c.index as int), set![a.index as int, b.index as int, c.index as int]),
        r matches Some(ch) ==> progress(
            s0,
            final(store)@,
            times_holds(a.index as int, b.index as int, c.index as int),
            ch,
            set![a.index as int, b.index as int, c.index as int],
        ),
        r is Some && a.index != b.index && c.index != a.index && c.index != b.index ==> forall|x: int|
            s4[b.index as int] == set![x] && x != 0 && !old(store)@[b.index as int].is_empty() ==> #[trigger] factor_cut(
                final(store)@[a.index as int],
                s4[c.index as int],
                x,
            ),
        r is Some && !old(store)@[c.index as int].is_empty() ==> final(store)@ == fixed_factor_cut(
            old(store)@,
            b.index as int,
            a.index as int,
            least(old(store)@[c.index as int]),
            greatest(old(store)@[c.index as int]),
        ),
{
    let ghost ai = a.index as int;
    let ghost bi = b.index as int;
    let ghost ci = c.index as int;
    let ghost cons = times_holds(ai, bi, ci);
    let ghost w = set![ai, bi, ci];
    let ghost dist3 = ai != bi && ci != ai && ci != bi;
    let ghost sb0 = store@;
    let mut changed = changed;
    proof {
        if forall|v: int| sb0[bi] != set![v] {
            assert(!is_fixed(sb0[bi]));
        }
    }
    if let Some(bf) = store.fixed_value(b) {
        proof {
            assert(is_fixed(sb0[bi]));
            assert(crate::domain::is_least(sb0[bi], bf as int));
            lemma_least_is(sb0[bi], bf as int);
        }
        if bf != 0 {
            let cmin2 = match store.min(c) {
                Some(v) => v,
                None => cmin,
            };
            let cmax2 = match store.max(c) {
                Some(v) => v,
                None => cmax,
            };
            proof {
                if !sb0[ci].is_empty() {
                    lemma_least_is(sb0[ci], cmin2 as int);
                    lemma_greatest_is(sb0[ci], cmax2 as int);
                }
                assert(within(store@[ci], cmin2 as int, cmax2 as int));
                if dist3 {
                    lemma_least_is(s4[ci], cmin as int);
                    lemma_greatest_is(s4[ci], cmax as int);
                    lemma_least_is(s4[ci], cmin2 as int);
                    lemma_greatest_is(s4[ci], cmax2 as int);
                }
            }
            match factor_bounds_from_product(cmin2, cmax2, bf) {
                Some((lo, hi)) => {
                    proof {
                        let s = store@;
                        assert forall|sigma: Seq<int>| assignment_on(s, sigma, w) && #[trigger] cons(sigma) implies lo
                            <= sigma[ai] <= hi by {
                            assert(s[bi].contains(sigma[bi]));
                            assert(s[ci].contains(sigma[ci]));
                            lemma_progress_facts(s0, s, cons, changed, w);
                            crate::solutions::lemma_assignment_on_narrows(s0, s, sigma, w);
                            assert(s0[ai].contains(sigma[ai]));
                            assert(in_i32_range(s0[ai]));
                            lemma_factor_bounds_sound(cmin2 as int, cmax2 as int, bf as int, sigma[ai]);
                        }
                    }
                    changed = restrict_step(store, a, lo, hi, Ghost(s0), Ghost(cons), Ghost(w), changed);
                    proof {
                        if dist3 {
                            assert forall|x: int| s4[bi] == set![x] && x != 0 && !sb0[bi].is_empty() implies #[trigger] factor_cut(
                                store@[ai],
                                s4[ci],
                                x,
                            ) by {
                                assert(sb0[bi].subset_of(set![x]));
                                assert(sb0[bi].contains(bf as int));
                            }
                        }
                    }
                },
                None => {
                    proof {
                        lemma_no_quotient_unsat(s0, store@, ai, bi, ci, changed, w, cmin2 as int, cmax2 as int, bf as int, false);
                    }
                    return None;
                },
            }
        } else {
            proof {
                assert forall|x: int| s4[bi] == set![x] && x != 0 && !sb0[bi].is_empty() implies false by {
                    assert(sb0[bi].subset_of(set![x]));
                    assert(sb0[bi] =~= set![x]);
                    assert(set![x].contains(x));
                }
            }
        }
    } else {
        proof {
            assert forall|x: int| s4[bi] == set![x] && x != 0 && !sb0[bi].is_empty() implies false by {
                assert(sb0[bi].subset_of(set![x]));
                assert(sb0[bi] =~= set![x]);
            }
        }
    }
    Some(changed)
}

/// The steps of [`IntTimesPropagator::propagate`] after the product cut: zero leaves the
/// factors of a product without zero, and a fixed non-zero factor cuts the other one.
fn finish_times(
    store: &mut DomainStore,
    a: VariableId,
    b: VariableId,
    c: VariableId,
    amin: i32,
    amax: i32,
    bmin: i32,
    bmax: i32,
    Ghost(s0): Ghost<Seq<Set<int>>>,
    changed: bool,
) -> (status: PropagationStatus)
    requires
        a.index < old(store)@.len(),
        b.index < old(store)@.len(),
        c.index < old(store)@.len(),
        progress(
            s0,
            old(store)@,
            times_holds(a.index as int, b.index as int, c.index as int),
            changed,
            set![a.index as int, b.index as int, c.index as int],
        ),
        forall|i: int| 0 <= i < s0.len() ==> in_i32_range(#[trigger] s0[i]),
        within(old(store)@[a.index as int], amin as int, amax as int),
        within(old(store)@[b.index as int], bmin as int, bmax as int),
    ensures
        narrows(old(store)@, final(store)@),
        status == PropagationStatus::Failure ==> !has_solution(s0, times_holds(a.index as int, b.index as int, c.index as int)),
        status == PropagationStatus::Failure ==> !has_solution_on(s0, times_holds(a.index as int, b.index as int, c.index as int), set![a.index as int, b.index as int, c.index as int]),
        progress(
            s0,
            final(store)@,
            times_holds(a.index as int, b.index as int, c.index as int),
            final(store)@ != s0,
            set![a.index as int, b.index as int, c.index as int],
        ),
        status != PropagationStatus::Failure ==> {
            &&& !final(store)@[a.index as int].is_empty()
            &&& !final(store)@[b.index as int].is_empty()
            &&& !final(store)@[c.index as int].is_empty()
            &&& (status == PropagationStatus::OkChanged) == (final(store)@ != s0)
        },
        status != PropagationStatus::Failure && (least(old(store)@[c.index as int]) > 0 || greatest(
            old(store)@[c.index as int],
        ) < 0) ==> {
            &&& amin == 0 ==> !final(store)@[a.index as int].contains(0)
            &&& bmin == 0 ==> !final(store)@[b.index as int].contains(0)
        },
        status != PropagationStatus::Failure && a.index != b.index && c.index != a.index && c.index != b.index ==> {
            &&& final(store)@[c.index as int] == old(store)@[c.index as int]
            &&& forall|af: int|
                old(store)@[a.index as int] == set![af] && af != 0 ==> #[trigger] factor_cut(
                    final(store)@[b.index as int],
                    final(store)@[c.index as int],
                    af,
                )
            &&& forall|bf: int|
                old(store)@[b.index as int] == set![bf] && bf != 0 ==> #[trigger] factor_cut(
                    final(store)@[a.index as int],
                    final(store)@[c.index as int],
                    bf,
                )
            &&& final(store)@ == times_finish_outcome(
                old(store)@,
                a.index as int,
                b.index as int,
                c.index as int,
                amin as int,
                bmin as int,
            )
        },
{
    let ghost ai = a.index as int;
    let ghost bi = b.index as int;
    let ghost ci = c.index as int;
    let ghost cons = times_holds(ai, bi, ci);
    let ghost w = set![ai, bi, ci];
    let ghost s4 = store@;
    let mut changed = changed;
    let (cmin, cmax) = match (store.min(c), store.max(c)) {
        (Some(y), Some(z)) => (y, z),
        _ => {
            proof {
                lemma_progress_empty(s0, s4, cons, changed, w, ci);
            }
            proof {
                lemma_progress_facts(s0, store@, cons, changed, w);
            }
            return PropagationStatus::Failure;
        },
    };
    let ghost dist3 = ai != bi && ci != ai && ci != bi;
    proof {
        assert(within(s4[ci], cmin as int, cmax as int));
        assert(narrows(s4, s4));
        lemma_least_is(s4[ci], cmin as int);
        lemma_greatest_is(s4[ci], cmax as int);
    }
    // A product without zero has no zero factor.
    if cmin > 0 || cmax < 0 {
        if (amin == 0 && amax == 0) || (bmin == 0 && bmax == 0) {
            proof {
                lemma_zero_factor_unsat(s0, s4, ai, bi, ci, changed, w, cmin as int, cmax as int);
            }
            proof {
                lemma_progress_facts(s0, store@, cons, changed, w);
            }
            return PropagationStatus::Failure;
        }
        if amin == 0 {
            proof {
                let s = store@;
                assert forall|sigma: Seq<int>| assignment_on(s, sigma, w) && #[trigger] cons(sigma) implies sigma[ai] != 0 by {
                    assert(s[ci].contains(sigma[ci]));
                    lemma_zero_product(sigma[ai], sigma[bi]);
                }
            }
            changed = remove_value_step(store, a, 0, Ghost(s0), Ghost(cons), Ghost(w), changed);
            proof {
                lemma_within_after_cut(s4, ai, s4[ai].remove(0), ci, cmin as int, cmax as int);
                lemma_narrows_trans(s4, s4, store@);
                lemma_remove_zero_step(s4, s4, store@, ai, ai);
                lemma_remove_zero_step(s4, s4, store@, ai, bi);
            }
        }
        if bmin == 0 {
            proof {
                let s = store@;
                assert forall|sigma: Seq<int>| assignment_on(s, sigma, w) && #[trigger] cons(sigma) implies sigma[bi] != 0 by {
                    assert(s[ci].contains(sigma[ci]));
                    lemma_zero_product(sigma[ai], sigma[bi]);
                }
            }
            let ghost sb = store@;
            proof {
                assert(fixed_kept(s4, sb, ai) && fixed_kept(s4, sb, bi));
            }
            changed = remove_value_step(store, b, 0, Ghost(s0), Ghost(cons), Ghost(w), changed);
            proof {
                lemma_within_after_cut(sb, bi, sb[bi].remove(0), ci, cmin as int, cmax as int);
                lemma_narrows_trans(s4, sb, store@);
                lemma_remove_zero_step(s4, sb, store@, bi, ai);
                lemma_remove_zero_step(s4, sb, store@, bi, bi);
            }
        }
        proof {
            assert(narrows(s4, store@));
        }
        if is_fixed_zero(store, a) || is_fixed_zero(store, b) {
            proof {
                lemma_zero_factor_unsat(s0, store@, ai, bi, ci, changed, w, cmin as int, cmax as int);
            }
            proof {
                lemma_progress_facts(s0, store@, cons, changed, w);
            }
            return PropagationStatus::Failure;
        }
    }
    let ghost sa0 = store@;
    proof {
        if cmin > 0 || cmax < 0 {
            if amin == 0 {
                assert(!sa0[ai].contains(0));
            }
            if bmin == 0 {
                assert(!sa0[bi].contains(0));
            }
        }
        assert(fixed_kept(s4, sa0, ai) && fixed_kept(s4, sa0, bi));
        assert(dist3 ==> sa0[ci] == s4[ci]);
        if dist3 {
            if cmin > 0 || cmax < 0 {
                assert(sa0 == zero_free_cut(zero_free_cut(s4, ai, amin == 0), bi, bmin == 0));
            } else {
                assert(sa0 == s4);
            }
        }
    }
    // A fixed non-zero factor bounds the other by the quotients of the product.
    match cut_by_fixed_a(store, a, b, c, cmin, cmax, Ghost(s0), Ghost(s4), changed) {
        Some(ch) => {
            changed = ch;
        },
        None => {
            proof {
                lemma_progress_facts(s0, store@, cons, changed, w);
            }
            return PropagationStatus::Failure;
        },
    }
    let ghost sb0 = store@;
    proof {
        lemma_narrows_trans(s4, sa0, sb0);
        if dist3 {
            assert(sb0[ci] == s4[ci]);
            assert(sb0[ai] == sa0[ai]);
            assert(fixed_kept(s4, sb0, ai));
        }
    }
    match cut_by_fixed_b(store, a, b, c, cmin, cmax, Ghost(s0), Ghost(s4), changed) {
        Some(ch) => {
            changed = ch;
        },
        None => {
            proof {
                lemma_progress_facts(s0, store@, cons, changed, w);
            }
            return PropagationStatus::Failure;
        },
    }
    proof {
        lemma_progress_facts(s0, store@, cons, changed, w);
        assert(narrows(s4, store@));
        lemma_narrows_trans(sa0, sb0, store@);
        assert(store@[ai].subset_of(sa0[ai]) && store@[bi].subset_of(sa0[bi]));
        if dist3 {
            assert(store@[ci] == s4[ci]);
            assert(store@[bi] == sb0[bi]);
            assert(sb0 == fixed_factor_cut(sa0, ai, bi, cmin as int, cmax as int));
            assert(store@ == fixed_factor_cut(sb0, bi, ai, least(sb0[ci]), greatest(sb0[ci])));
            assert(store@ == times_finish_outcome(s4, ai, bi, ci, amin as int, bmin as int));
            assert forall|x: int| s4[ai] == set![x] && x != 0 implies #[trigger] factor_cut(store@[bi], store@[ci], x) by {
                assert(factor_cut(sb0[bi], s4[ci], x));
            }
            assert forall|x: int| s4[bi] == set![x] && x != 0 && !store@[bi].is_empty() implies #[trigger] factor_cut(
                store@[ai],
                store@[ci],
                x,
            ) by {
                assert(factor_cut(store@[ai], s4[ci], x));
            }
        }
    }
    if store.is_empty(a) || store.is_empty(b) || store.is_empty(c) {
        proof {
            if store@[ai].is_empty() {
                lemma_progress_empty(s0, store@, cons, changed, w, ai);
            } else if store@[bi].is_empty() {
                lemma_progress_empty(s0, store@, cons, changed, w, bi);
            } else {
                lemma_progress_empty(s0, store@, cons, changed, w, ci);
            }
        }
        PropagationStatus::Failure
    } else if changed {
        PropagationStatus::OkChanged
    } else {
        PropagationStatus::OkNoChange
    }
}

} // verus!
