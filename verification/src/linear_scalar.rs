//! Scalar linear constraints `sum(coeffs[i] * vars[i]) <= / >= rhs`, plain and reified.
use crate::arith::{clamp_i32, clamp_i32_spec, ceil_div_spec, lemma_ceil_div_props, lemma_tdiv_bound, lemma_trem_props, tdiv};
use crate::domain::{
    at_least, at_most, between, greatest, in_i32_range, least, lemma_greatest_is, lemma_least_is, lemma_narrow_step,
    narrows, DomainStore, PropagationStatus, VariableId,
};
use crate::inverse::{some_var_empty, vars_in_range};
use crate::reified::{lower_cut, pin, upper_cut};
use crate::domain::seq_has;
use crate::int_mod::is_fixed;
use vstd::prelude::*;

verus! {

/// Ceiling division with the saturating convention for a zero denominator.
pub open spec fn div_ceil_spec(numerator: int, denominator: int) -> int {
    if denominator == 0 {
        if numerator >= 0 { i32::MAX as int } else { i32::MIN as int }
    } else {
        ceil_div_spec(numerator, denominator)
    }
}

/// Inputs on which `div_ceil` stays within `i32` arithmetic.
pub open spec fn div_ceil_in_range(numerator: int, denominator: int) -> bool {
    &&& denominator < 0 ==> numerator != i32::MIN && denominator != i32::MIN
    &&& denominator > 0 && numerator >= 0 ==> numerator + denominator <= i32::MAX
    &&& denominator < 0 && numerator <= 0 ==> -numerator - denominator <= i32::MAX
}

/// Rounds `numerator / denominator` up; a zero denominator gives `i32::MAX` for a
/// non-negative numerator and `i32::MIN` otherwise.
pub fn div_ceil(numerator: i32, denominator: i32) -> (r: i32)
    requires
        div_ceil_in_range(numerator as int, denominator as int),
    ensures
        r == div_ceil_spec(numerator as int, denominator as int),
    decreases if denominator < 0 { 1int } else { 0int },
{
    if denominator == 0 {
        return if numerator >= 0 { i32::MAX } else { i32::MIN };
    }
    if denominator < 0 {
        proof {
            assert(ceil_div_spec(-numerator, -denominator) == ceil_div_spec(numerator as int, denominator as int));
        }
        return div_ceil(-numerator, -denominator);
    }
    proof {
        lemma_ceil_div_props(numerator as int, denominator as int);
    }
    if numerator >= 0 {
        let n = numerator + denominator - 1;
        proof {
            lemma_tdiv_bound(n as int, denominator as int);
            lemma_trem_props(n as int, denominator as int);
            let c = ceil_div_spec(numerator as int, denominator as int);
            let q = tdiv(n as int, denominator as int);
            let d = denominator as int;
            let nn = numerator as int;
            assert(q == c) by (nonlinear_arith)
                requires
                    d > 0,
                    nn >= 0,
                    d * c - d < nn <= d * c,
                    nn + d - 1 == d * q + (nn + d - 1 - d * q),
                    0 <= nn + d - 1 - d * q < d;
        }
        n / denominator
    } else {
        proof {
            lemma_tdiv_bound(numerator as int, denominator as int);
            lemma_trem_props(numerator as int, denominator as int);
            let c = ceil_div_spec(numerator as int, denominator as int);
            let q = tdiv(numerator as int, denominator as int);
            let d = denominator as int;
            let nn = numerator as int;
            assert(q == c) by (nonlinear_arith)
                requires
                    d > 0,
                    nn < 0,
                    d * c - d < nn <= d * c,
                    -d < nn - d * q <= 0;
        }
        numerator / denominator
    }
}


/// Smallest value of `d`, or `0` when it is empty.
pub open spec fn lo_or0(d: Set<int>) -> int {
    if d.is_empty() { 0 } else { least(d) }
}

/// Largest value of `d`, or `0` when it is empty.
pub open spec fn hi_or0(d: Set<int>) -> int {
    if d.is_empty() { 0 } else { greatest(d) }
}

/// Least contribution of `c * var`, saturating into `i32`.
pub open spec fn contrib_min(s: Seq<Set<int>>, var: VariableId, c: int) -> int {
    if c > 0 {
        clamp_i32_spec(c * lo_or0(s[var.index as int]))
    } else {
        clamp_i32_spec(c * hi_or0(s[var.index as int]))
    }
}

/// Greatest contribution of `c * var`, saturating into `i32`.
pub open spec fn contrib_max(s: Seq<Set<int>>, var: VariableId, c: int) -> int {
    if c > 0 {
        clamp_i32_spec(c * hi_or0(s[var.index as int]))
    } else {
        clamp_i32_spec(c * lo_or0(s[var.index as int]))
    }
}

/// Sum of the least contributions of the first `k` terms, leaving out the term `skip`.
pub open spec fn sum_min_excl(s: Seq<Set<int>>, coeffs: Seq<i32>, vars: Seq<VariableId>, skip: int, k: nat) -> int
    decreases k,
{
    if k == 0 {
        0
    } else {
        sum_min_excl(s, coeffs, vars, skip, (k - 1) as nat) + if k - 1 == skip {
            0
        } else {
            contrib_min(s, vars[k - 1], coeffs[k - 1] as int)
        }
    }
}

/// Sum of the greatest contributions of the first `k` terms, leaving out the term `skip`.
pub open spec fn sum_max_excl(s: Seq<Set<int>>, coeffs: Seq<i32>, vars: Seq<VariableId>, skip: int, k: nat) -> int
    decreases k,
{
    if k == 0 {
        0
    } else {
        sum_max_excl(s, coeffs, vars, skip, (k - 1) as nat) + if k - 1 == skip {
            0
        } else {
            contrib_max(s, vars[k - 1], coeffs[k - 1] as int)
        }
    }
}

/// Least value of `sum(coeffs[i] * vars[i])` by the bounds of `s`.
pub open spec fn min_total(s: Seq<Set<int>>, coeffs: Seq<i32>, vars: Seq<VariableId>) -> int {
    sum_min_excl(s, coeffs, vars, -1, vars.len())
}

/// Greatest value of `sum(coeffs[i] * vars[i])` by the bounds of `s`.
pub open spec fn max_total(s: Seq<Set<int>>, coeffs: Seq<i32>, vars: Seq<VariableId>) -> int {
    sum_max_excl(s, coeffs, vars, -1, vars.len())
}

proof fn lemma_sum_bounds(s: Seq<Set<int>>, coeffs: Seq<i32>, vars: Seq<VariableId>, skip: int, k: nat)
    ensures
        i32::MIN * k <= sum_min_excl(s, coeffs, vars, skip, k) <= i32::MAX * k,
        i32::MIN * k <= sum_max_excl(s, coeffs, vars, skip, k) <= i32::MAX * k,
    decreases k,
{
    if k > 0 {
        lemma_sum_bounds(s, coeffs, vars, skip, (k - 1) as nat);
    }
}

/// Leaving out a term beyond the first `k` leaves out nothing.
proof fn lemma_sum_skip_out(s: Seq<Set<int>>, coeffs: Seq<i32>, vars: Seq<VariableId>, skip: int, k: nat)
    requires
        skip >= k,
    ensures
        sum_min_excl(s, coeffs, vars, skip, k) == sum_min_excl(s, coeffs, vars, -1, k),
        sum_max_excl(s, coeffs, vars, skip, k) == sum_max_excl(s, coeffs, vars, -1, k),
    decreases k,
{
    if k > 0 {
        lemma_sum_skip_out(s, coeffs, vars, skip, (k - 1) as nat);
    }
}

/// Smallest value of `var`, or `0` when its domain is empty.
fn lo_or0_exec(store: &DomainStore, var: VariableId) -> (r: i32)
    requires
        var.index < store@.len(),
    ensures
        r == lo_or0(store@[var.index as int]),
{
    match store.min(var) {
        Some(m) => {
            proof {
                lemma_least_is(store@[var.index as int], m as int);
            }
            m
        },
        None => 0,
    }
}

/// Largest value of `var`, or `0` when its domain is empty.
fn hi_or0_exec(store: &DomainStore, var: VariableId) -> (r: i32)
    requires
        var.index < store@.len(),
    ensures
        r == hi_or0(store@[var.index as int]),
{
    match store.max(var) {
        Some(m) => {
            proof {
                lemma_greatest_is(store@[var.index as int], m as int);
            }
            m
        },
        None => 0,
    }
}

/// Least contribution of `coeff * var` ([`contrib_min`]).
fn contribution_min(store: &DomainStore, var: VariableId, coeff: i32) -> (r: i32)
    requires
        var.index < store@.len(),
    ensures
        r == contrib_min(store@, var, coeff as int),
{
    let bound = if coeff > 0 { lo_or0_exec(store, var) } else { hi_or0_exec(store, var) };
    proof {
        assert(-0x8000_0000 * 0x8000_0000 <= coeff * bound <= 0x8000_0000 * 0x8000_0000) by (nonlinear_arith)
            requires
                i32::MIN <= coeff <= i32::MAX,
                i32::MIN <= bound <= i32::MAX,
        ;
    }
    clamp_i32(coeff as i64 * bound as i64)
}

/// Greatest contribution of `coeff * var` ([`contrib_max`]).
fn contribution_max(store: &DomainStore, var: VariableId, coeff: i32) -> (r: i32)
    requires
        var.index < store@.len(),
    ensures
        r == contrib_max(store@, var, coeff as int),
{
    let bound = if coeff > 0 { hi_or0_exec(store, var) } else { lo_or0_exec(store, var) };
    proof {
        assert(-0x8000_0000 * 0x8000_0000 <= coeff * bound <= 0x8000_0000 * 0x8000_0000) by (nonlinear_arith)
            requires
                i32::MIN <= coeff <= i32::MAX,
                i32::MIN <= bound <= i32::MAX,
        ;
    }
    clamp_i32(coeff as i64 * bound as i64)
}

/// Sum of the least (`upper` false) or greatest (`upper` true) contributions of all
/// terms but `skip`.
fn sum_excluding(store: &DomainStore, coeffs: &Vec<i32>, vars: &Vec<VariableId>, skip: usize, upper: bool) -> (r: i128)
    requires
        vars_in_range(vars@, store@.len()),
        coeffs@.len() >= vars@.len(),
    ensures
        r == (if upper {
            sum_max_excl(store@, coeffs@, vars@, skip as int, vars@.len())
        } else {
            sum_min_excl(store@, coeffs@, vars@, skip as int, vars@.len())
        }),
{
    let mut total: i128 = 0;
    let mut i: usize = 0;
    while i < vars.len()
        invariant
            0 <= i <= vars@.len(),
            coeffs@.len() >= vars@.len(),
            vars_in_range(vars@, store@.len()),
            total == (if upper {
                sum_max_excl(store@, coeffs@, vars@, skip as int, i as nat)
            } else {
                sum_min_excl(store@, coeffs@, vars@, skip as int, i as nat)
            }),
        decreases vars@.len() - i,
    {
        proof {
            lemma_sum_bounds(store@, coeffs@, vars@, skip as int, i as nat);
            assert(i32::MIN * i >= -0x8000_0000 * 0x1_0000_0000_0000_0000) by (nonlinear_arith)
                requires
                    0 <= i < 0x1_0000_0000_0000_0000,
            ;
            assert(i32::MAX * i <= 0x8000_0000 * 0x1_0000_0000_0000_0000) by (nonlinear_arith)
                requires
                    0 <= i < 0x1_0000_0000_0000_0000,
            ;
        }
        if i != skip {
            let c = if upper {
                contribution_max(store, vars[i], coeffs[i])
            } else {
                contribution_min(store, vars[i], coeffs[i])
            };
            total = total + c as i128;
        }
        i = i + 1;
    }
    total
}

/// Cuts `var` to values of at least `bound`, which may lie outside `i32`.
fn cut_below_wide(store: &mut DomainStore, var: VariableId, bound: i128) -> (changed: bool)
    requires
        var.index < old(store)@.len(),
    ensures
        final(store)@ == lower_cut(old(store)@, var.index as int, bound as int),
        changed == (final(store)@ != old(store)@),
        narrows(old(store)@, final(store)@),
{
    store.assert_in_range();
    let ghost s = store@;
    let ghost vi = var.index as int;
    if bound > i32::MAX as i128 {
        let changed = store.restrict(var, 1, 0);
        proof {
            assert(in_i32_range(s[vi]));
            assert(between(s[vi], 1, 0) =~= at_least(s[vi], bound as int));
        }
        changed
    } else if bound < i32::MIN as i128 {
        proof {
            assert(in_i32_range(s[vi]));
            assert(at_least(s[vi], bound as int) =~= s[vi]);
            assert(lower_cut(s, vi, bound as int) =~= s);
            assert(narrows(s, s));
        }
        false
    } else {
        store.remove_below(var, bound as i32)
    }
}

/// Cuts `var` to values of at most `bound`, which may lie outside `i32`.
fn cut_above_wide(store: &mut DomainStore, var: VariableId, bound: i128) -> (changed: bool)
    requires
        var.index < old(store)@.len(),
    ensures
        final(store)@ == upper_cut(old(store)@, var.index as int, bound as int),
        changed == (final(store)@ != old(store)@),
        narrows(old(store)@, final(store)@),
{
    store.assert_in_range();
    let ghost s = store@;
    let ghost vi = var.index as int;
    if bound < i32::MIN as i128 {
        let changed = store.restrict(var, 1, 0);
        proof {
            assert(in_i32_range(s[vi]));
            assert(between(s[vi], 1, 0) =~= at_most(s[vi], bound as int));
        }
        changed
    } else if bound > i32::MAX as i128 {
        proof {
            assert(in_i32_range(s[vi]));
            assert(at_most(s[vi], bound as int) =~= s[vi]);
            assert(upper_cut(s, vi, bound as int) =~= s);
            assert(narrows(s, s));
        }
        false
    } else {
        store.remove_above(var, bound as i32)
    }
}

/// Truncating division of wide values.
fn tdiv_wide(n: i128, d: i128) -> (q: i128)
    requires
        d != 0,
        -0x1_0000_0000_0000_0000_0000_0000 <= n <= 0x1_0000_0000_0000_0000_0000_0000,
    ensures
        q == tdiv(n as int, d as int),
{
    proof {
        lemma_tdiv_bound(n as int, d as int);
    }
    n / d
}

/// Ceiling division of wide values.
fn ceil_div_wide(n: i128, d: i128) -> (q: i128)
    requires
        d != 0,
        -0x1_0000_0000_0000_0000_0000_0000 <= n <= 0x1_0000_0000_0000_0000_0000_0000,
        -0x1_0000_0000 <= d <= 0x1_0000_0000,
    ensures
        q == ceil_div_spec(n as int, d as int),
{
    let (nn, dd) = if d < 0 { (-n, -d) } else { (n, d) };
    proof {
        assert(ceil_div_spec(nn as int, dd as int) == ceil_div_spec(n as int, d as int));
        lemma_ceil_div_props(nn as int, dd as int);
        lemma_tdiv_bound(nn as int, dd as int);
    }
    if nn >= 0 {
        let m = nn + dd - 1;
        proof {
            lemma_tdiv_bound(m as int, dd as int);
            lemma_trem_props(m as int, dd as int);
            let c = ceil_div_spec(nn as int, dd as int);
            let q = tdiv(m as int, dd as int);
            let d0 = dd as int;
            let n0 = nn as int;
            assert(q == c) by (nonlinear_arith)
                requires
                    d0 > 0,
                    n0 >= 0,
                    d0 * c - d0 < n0 <= d0 * c,
                    n0 + d0 - 1 == d0 * q + (n0 + d0 - 1 - d0 * q),
                    0 <= n0 + d0 - 1 - d0 * q < d0,
            ;
        }
        m / dd
    } else {
        proof {
            lemma_trem_props(nn as int, dd as int);
            let c = ceil_div_spec(nn as int, dd as int);
            let q = tdiv(nn as int, dd as int);
            let d0 = dd as int;
            let n0 = nn as int;
            assert(q == c) by (nonlinear_arith)
                requires
                    d0 > 0,
                    n0 < 0,
                    d0 * c - d0 < n0 <= d0 * c,
                    -d0 < n0 - d0 * q <= 0,
            ;
        }
        nn / dd
    }
}


/// Store after the term `i` of `sum(coeffs * vars) <= rhs` (`ge` false) or `>= rhs`
/// (`ge` true) is cut by the slack that the other terms' bounds leave it.
pub open spec fn scalar_step(s: Seq<Set<int>>, coeffs: Seq<i32>, vars: Seq<VariableId>, rhs: int, ge: bool, i: int) -> Seq<Set<int>> {
    let c = coeffs[i] as int;
    let x = vars[i].index as int;
    if c == 0 {
        s
    } else if !ge {
        let slack = rhs - sum_min_excl(s, coeffs, vars, i, vars.len());
        if c > 0 {
            upper_cut(s, x, tdiv(slack, c))
        } else {
            lower_cut(s, x, ceil_div_spec(slack, c))
        }
    } else {
        let slack = rhs - sum_max_excl(s, coeffs, vars, i, vars.len());
        if c > 0 {
            lower_cut(s, x, ceil_div_spec(slack, c))
        } else {
            upper_cut(s, x, tdiv(slack, c))
        }
    }
}

/// Store after the first `k` terms are cut, in order.
pub open spec fn scalar_pass(s: Seq<Set<int>>, coeffs: Seq<i32>, vars: Seq<VariableId>, rhs: int, ge: bool, k: nat) -> Seq<Set<int>>
    decreases k,
{
    if k == 0 {
        s
    } else {
        scalar_step(scalar_pass(s, coeffs, vars, rhs, ge, (k - 1) as nat), coeffs, vars, rhs, ge, k - 1)
    }
}

/// Status at the end of a pass that took the store from `s` to `t`.
pub open spec fn vars_status(s: Seq<Set<int>>, t: Seq<Set<int>>, vars: Seq<VariableId>) -> PropagationStatus {
    if some_var_empty(t, vars) {
        PropagationStatus::Failure
    } else if t != s {
        PropagationStatus::OkChanged
    } else {
        PropagationStatus::OkNoChange
    }
}

/// Store and status after propagating `sum(coeffs * vars) <= rhs` (`ge` false) or
/// `>= rhs` (`ge` true) on `s`: failure when the bounds already rule it out, else one
/// pass of cuts.
pub open spec fn scalar_outcome(s: Seq<Set<int>>, coeffs: Seq<i32>, vars: Seq<VariableId>, rhs: int, ge: bool) -> (Seq<Set<int>>, PropagationStatus) {
    if (!ge && min_total(s, coeffs, vars) > rhs) || (ge && max_total(s, coeffs, vars) < rhs) {
        (s, PropagationStatus::Failure)
    } else {
        let t = scalar_pass(s, coeffs, vars, rhs, ge, vars.len());
        (t, vars_status(s, t, vars))
    }
}

/// `sum(coeffs[j] * sigma[vars[j]])` over the first `k` terms, leaving out the term `skip`.
pub open spec fn term_sum_excl(coeffs: Seq<i32>, vars: Seq<VariableId>, sigma: Seq<int>, skip: int, k: nat) -> int
    decreases k,
{
    if k == 0 {
        0
    } else {
        term_sum_excl(coeffs, vars, sigma, skip, (k - 1) as nat) + if k - 1 == skip {
            0
        } else {
            coeffs[k - 1] * sigma[vars[k - 1].index as int]
        }
    }
}

/// `sigma` gives each variable of `vars` a value of its (finite) domain in `s`, and each
/// term `coeffs[j] * sigma[vars[j]]` fits in `i32`.
pub open spec fn terms_fit(s: Seq<Set<int>>, coeffs: Seq<i32>, vars: Seq<VariableId>, sigma: Seq<int>) -> bool {
    forall|j: int|
        0 <= j < vars.len() ==> {
            &&& s[(#[trigger] vars[j]).index as int].contains(sigma[vars[j].index as int])
            &&& s[vars[j].index as int].finite()
            &&& i32::MIN <= coeffs[j] * sigma[vars[j].index as int] <= i32::MAX
        }
}

/// The bound sums bracket the sum of the terms.
proof fn lemma_term_sum_bounds(s: Seq<Set<int>>, coeffs: Seq<i32>, vars: Seq<VariableId>, sigma: Seq<int>, skip: int, k: nat)
    requires
        k <= vars.len(),
        terms_fit(s, coeffs, vars, sigma),
    ensures
        sum_min_excl(s, coeffs, vars, skip, k) <= term_sum_excl(coeffs, vars, sigma, skip, k) <= sum_max_excl(
            s,
            coeffs,
            vars,
            skip,
            k,
        ),
    decreases k,
{
    if k > 0 {
        lemma_term_sum_bounds(s, coeffs, vars, sigma, skip, (k - 1) as nat);
        let j = k - 1;
        if j != skip {
            let d = s[vars[j].index as int];
            let v = sigma[vars[j].index as int];
            let c = coeffs[j] as int;
            assert(d.contains(v) && d.finite());
            crate::domain::lemma_member_in_bounds(d, v);
            assert(lo_or0(d) <= v <= hi_or0(d));
            if c > 0 {
                assert(c * lo_or0(d) <= c * v <= c * hi_or0(d)) by (nonlinear_arith)
                    requires
                        c > 0,
                        lo_or0(d) <= v <= hi_or0(d),
                ;
            } else {
                assert(c * hi_or0(d) <= c * v <= c * lo_or0(d)) by (nonlinear_arith)
                    requires
                        c <= 0,
                        lo_or0(d) <= v <= hi_or0(d),
                ;
            }
        }
    }
}

/// Leaving one term out of the sum and adding it back gives the whole sum.
proof fn lemma_term_sum_split(coeffs: Seq<i32>, vars: Seq<VariableId>, sigma: Seq<int>, skip: int, k: nat)
    requires
        0 <= skip,
    ensures
        term_sum_excl(coeffs, vars, sigma, skip, k) + (if skip < k {
            coeffs[skip] * sigma[vars[skip].index as int]
        } else {
            0
        }) == term_sum_excl(coeffs, vars, sigma, -1, k),
    decreases k,
{
    if k > 0 {
        lemma_term_sum_split(coeffs, vars, sigma, skip, (k - 1) as nat);
    }
}

/// A cut of one term keeps every value `v` with `c * v` on the allowed side of `slack`.
proof fn lemma_cut_keeps_term(c: int, v: int, slack: int, ge: bool)
    requires
        c != 0,
        !ge ==> c * v <= slack,
        ge ==> c * v >= slack,
    ensures
        (!ge && c > 0) || (ge && c < 0) ==> v <= tdiv(slack, c),
        (!ge && c < 0) || (ge && c > 0) ==> v >= ceil_div_spec(slack, c),
{
    lemma_trem_props(slack, c);
    lemma_ceil_div_props(slack, c);
    let q = tdiv(slack, c);
    let r = crate::arith::trem(slack, c);
    let e = ceil_div_spec(slack, c);
    if (!ge && c > 0) || (ge && c < 0) {
        if v > q {
            assert(c * v >= c * q + c || c < 0) by (nonlinear_arith)
                requires
                    v >= q + 1,
            ;
            assert(c * v <= c * q + c || c > 0) by (nonlinear_arith)
                requires
                    v >= q + 1,
            ;
        }
    }
    if (!ge && c < 0) || (ge && c > 0) {
        if v < e {
            assert(c * v >= c * e - c || c > 0) by (nonlinear_arith)
                requires
                    v <= e - 1,
            ;
            assert(c * v <= c * e - c || c < 0) by (nonlinear_arith)
                requires
                    v <= e - 1,
            ;
        }
    }
}

/// One cut keeps every solution whose terms fit.
proof fn lemma_scalar_step_keeps(
    s: Seq<Set<int>>,
    coeffs: Seq<i32>,
    vars: Seq<VariableId>,
    rhs: int,
    ge: bool,
    i: int,
    sigma: Seq<int>,
)
    requires
        0 <= i < vars.len(),
        vars_in_range(vars, s.len()),
        coeffs.len() >= vars.len(),
        terms_fit(s, coeffs, vars, sigma),
        !ge ==> term_sum_excl(coeffs, vars, sigma, -1, vars.len()) <= rhs,
        ge ==> term_sum_excl(coeffs, vars, sigma, -1, vars.len()) >= rhs,
    ensures
        terms_fit(scalar_step(s, coeffs, vars, rhs, ge, i), coeffs, vars, sigma),
        scalar_step(s, coeffs, vars, rhs, ge, i).len() == s.len(),
{
    let c = coeffs[i] as int;
    let x = vars[i].index as int;
    let v = sigma[x];
    let t = scalar_step(s, coeffs, vars, rhs, ge, i);
    if c != 0 {
        lemma_term_sum_bounds(s, coeffs, vars, sigma, i, vars.len());
        lemma_term_sum_split(coeffs, vars, sigma, i, vars.len());
        let slack = if !ge {
            rhs - sum_min_excl(s, coeffs, vars, i, vars.len())
        } else {
            rhs - sum_max_excl(s, coeffs, vars, i, vars.len())
        };
        lemma_cut_keeps_term(c, v, slack, ge);
        assert(t[x].contains(v));
        assert(t[x].subset_of(s[x]));
        vstd::set_lib::lemma_len_subset(t[x], s[x]);
        assert forall|j: int| 0 <= j < vars.len() implies {
            &&& t[(#[trigger] vars[j]).index as int].contains(sigma[vars[j].index as int])
            &&& t[vars[j].index as int].finite()
            &&& i32::MIN <= coeffs[j] * sigma[vars[j].index as int] <= i32::MAX
        } by {
            assert(s[vars[j].index as int].contains(sigma[vars[j].index as int]));
        }
    }
}

/// The first `k` cuts keep every solution whose terms fit.
proof fn lemma_scalar_pass_keeps(
    s: Seq<Set<int>>,
    coeffs: Seq<i32>,
    vars: Seq<VariableId>,
    rhs: int,
    ge: bool,
    k: nat,
    sigma: Seq<int>,
)
    requires
        k <= vars.len(),
        vars_in_range(vars, s.len()),
        coeffs.len() >= vars.len(),
        terms_fit(s, coeffs, vars, sigma),
        !ge ==> term_sum_excl(coeffs, vars, sigma, -1, vars.len()) <= rhs,
        ge ==> term_sum_excl(coeffs, vars, sigma, -1, vars.len()) >= rhs,
    ensures
        terms_fit(scalar_pass(s, coeffs, vars, rhs, ge, k), coeffs, vars, sigma),
        scalar_pass(s, coeffs, vars, rhs, ge, k).len() == s.len(),
    decreases k,
{
    if k > 0 {
        lemma_scalar_pass_keeps(s, coeffs, vars, rhs, ge, (k - 1) as nat, sigma);
        lemma_scalar_step_keeps(scalar_pass(s, coeffs, vars, rhs, ge, (k - 1) as nat), coeffs, vars, rhs, ge, k - 1, sigma);
    }
}

/// Propagating `sum(coeffs * vars) <= rhs` (or `>= rhs`) keeps every assignment of the
/// variables from their domains that satisfies it and whose terms fit in `i32`, and
/// then does not fail.
pub proof fn law_scalar_keeps_solutions(
    s: Seq<Set<int>>,
    coeffs: Seq<i32>,
    vars: Seq<VariableId>,
    rhs: int,
    ge: bool,
    sigma: Seq<int>,
)
    requires
        vars_in_range(vars, s.len()),
        coeffs.len() >= vars.len(),
        terms_fit(s, coeffs, vars, sigma),
        !ge ==> term_sum_excl(coeffs, vars, sigma, -1, vars.len()) <= rhs,
        ge ==> term_sum_excl(coeffs, vars, sigma, -1, vars.len()) >= rhs,
    ensures
        terms_fit(scalar_outcome(s, coeffs, vars, rhs, ge).0, coeffs, vars, sigma),
        scalar_outcome(s, coeffs, vars, rhs, ge).1 != PropagationStatus::Failure,
{
    lemma_term_sum_bounds(s, coeffs, vars, sigma, -1, vars.len());
    lemma_scalar_pass_keeps(s, coeffs, vars, rhs, ge, vars.len(), sigma);
    let t = scalar_pass(s, coeffs, vars, rhs, ge, vars.len());
    if some_var_empty(t, vars) {
        let j = choose|j: int| 0 <= j < vars.len() && t[(#[trigger] vars[j]).index as int].is_empty();
        assert(t[vars[j].index as int].contains(sigma[vars[j].index as int]));
    }
}

/// Whether some variable of `vars` has an empty domain.
fn any_var_empty(store: &DomainStore, vars: &Vec<VariableId>) -> (r: bool)
    requires
        vars_in_range(vars@, store@.len()),
    ensures
        r == some_var_empty(store@, vars@),
{
    let mut i: usize = 0;
    while i < vars.len()
        invariant
            0 <= i <= vars@.len(),
            vars_in_range(vars@, store@.len()),
            forall|k: int| 0 <= k < i ==> !store@[(#[trigger] vars@[k]).index as int].is_empty(),
        decreases vars@.len() - i,
    {
        if store.is_empty(vars[i]) {
            proof {
                assert(store@[vars@[i as int].index as int].is_empty());
            }
            return true;
        }
        i = i + 1;
    }
    false
}

/// Cuts the term `i` (see [`scalar_step`]); returns whether a domain changed.
fn cut_term(store: &mut DomainStore, coeffs: &Vec<i32>, vars: &Vec<VariableId>, rhs: i32, ge: bool, i: usize) -> (changed: bool)
    requires
        vars_in_range(vars@, old(store)@.len()),
        coeffs@.len() >= vars@.len(),
        i < vars@.len(),
    ensures
        final(store)@ == scalar_step(old(store)@, coeffs@, vars@, rhs as int, ge, i as int),
        narrows(old(store)@, final(store)@),
        changed == (final(store)@ != old(store)@),
{
    let ghost s = store@;
    let coeff = coeffs[i];
    let var = vars[i];
    if coeff == 0 {
        proof {
            assert(narrows(s, s));
        }
        return false;
    }
    let other = sum_excluding(store, coeffs, vars, i, ge);
    let n = vars.len();
    proof {
        lemma_sum_bounds(s, coeffs@, vars@, i as int, vars@.len());
        assert(i32::MIN * n >= -0x8000_0000 * 0x1_0000_0000_0000_0000) by (nonlinear_arith)
            requires
                0 <= n < 0x1_0000_0000_0000_0000,
        ;
        assert(i32::MAX * n <= 0x8000_0000 * 0x1_0000_0000_0000_0000) by (nonlinear_arith)
            requires
                0 <= n < 0x1_0000_0000_0000_0000,
        ;
    }
    let slack = rhs as i128 - other;
    if !ge {
        if coeff > 0 {
            let bound = tdiv_wide(slack, coeff as i128);
            cut_above_wide(store, var, bound)
        } else {
            let bound = ceil_div_wide(slack, coeff as i128);
            cut_below_wide(store, var, bound)
        }
    } else {
        if coeff > 0 {
            let bound = ceil_div_wide(slack, coeff as i128);
            cut_below_wide(store, var, bound)
        } else {
            let bound = tdiv_wide(slack, coeff as i128);
            cut_above_wide(store, var, bound)
        }
    }
}

/// Propagates `sum(coeffs * vars) <= rhs` (`ge` false) or `>= rhs` (`ge` true): see
/// [`scalar_outcome`].
fn propagate_scalar(store: &mut DomainStore, coeffs: &Vec<i32>, vars: &Vec<VariableId>, rhs: i32, ge: bool) -> (status: PropagationStatus)
    requires
        vars_in_range(vars@, old(store)@.len()),
        coeffs@.len() >= vars@.len(),
    ensures
        (final(store)@, status) == scalar_outcome(old(store)@, coeffs@, vars@, rhs as int, ge),
        narrows(old(store)@, final(store)@),
{
    let ghost s0 = store@;
    let n = vars.len();
    let total = sum_excluding(store, coeffs, vars, n, ge);
    proof {
        lemma_sum_skip_out(s0, coeffs@, vars@, n as int, vars@.len());
    }
    if (!ge && total > rhs as i128) || (ge && total < rhs as i128) {
        return PropagationStatus::Failure;
    }
    let mut changed = false;
    let mut i: usize = 0;
    proof {
        assert(narrows(s0, s0));
    }
    while i < n
        invariant
            0 <= i <= n,
            n == vars@.len(),
            coeffs@.len() >= vars@.len(),
            store@.len() == s0.len(),
            vars_in_range(vars@, s0.len()),
            store@ == scalar_pass(s0, coeffs@, vars@, rhs as int, ge, i as nat),
            narrows(s0, store@),
            changed == (store@ != s0),
        decreases n - i,
    {
        let ghost t = store@;
        let step = cut_term(store, coeffs, vars, rhs, ge, i);
        proof {
            lemma_narrow_step(s0, t, store@, changed, step);
        }
        changed = changed || step;
        i = i + 1;
    }
    if any_var_empty(store, vars) {
        PropagationStatus::Failure
    } else if changed {
        PropagationStatus::OkChanged
    } else {
        PropagationStatus::OkNoChange
    }
}

/// Propagates `sum(coeffs * vars) <= rhs` with bound consistency: see
/// [`scalar_outcome`].
pub fn propagate_scalar_le(store: &mut DomainStore, coeffs: &Vec<i32>, vars: &Vec<VariableId>, rhs: i32) -> (status: PropagationStatus)
    requires
        vars_in_range(vars@, old(store)@.len()),
        coeffs@.len() >= vars@.len(),
    ensures
        (final(store)@, status) == scalar_outcome(old(store)@, coeffs@, vars@, rhs as int, false),
        narrows(old(store)@, final(store)@),
{
    propagate_scalar(store, coeffs, vars, rhs, false)
}

/// Propagates `sum(coeffs * vars) >= rhs` with bound consistency: see
/// [`scalar_outcome`].
pub fn propagate_scalar_ge(store: &mut DomainStore, coeffs: &Vec<i32>, vars: &Vec<VariableId>, rhs: i32) -> (status: PropagationStatus)
    requires
        vars_in_range(vars@, old(store)@.len()),
        coeffs@.len() >= vars@.len(),
    ensures
        (final(store)@, status) == scalar_outcome(old(store)@, coeffs@, vars@, rhs as int, true),
        narrows(old(store)@, final(store)@),
{
    propagate_scalar(store, coeffs, vars, rhs, true)
}


/// `q` lists the members of `d` in increasing order.
pub open spec fn sorted_listing(q: Seq<int>, d: Set<int>) -> bool {
    &&& forall|j: int, k: int| 0 <= j < k < q.len() ==> q[j] < q[k]
    &&& forall|x: int| q.contains(x) <==> d.contains(x)
}

/// The members of a finite `d` in increasing order.
pub open spec fn sorted_elems(d: Set<int>) -> Seq<int> {
    choose|q: Seq<int>| sorted_listing(q, d)
}

/// Two increasing listings of one set are equal.
pub proof fn lemma_sorted_listing_unique(a: Seq<int>, b: Seq<int>, d: Set<int>)
    requires
        sorted_listing(a, d),
        sorted_listing(b, d),
    ensures
        a == b,
    decreases a.len(),
{
    if a.len() == 0 {
        if b.len() > 0 {
            assert(b.contains(b[0]));
            assert(d.contains(b[0]));
            assert(a.contains(b[0]));
        }
        assert(a =~= b);
    } else {
        assert(a.contains(a[0]));
        assert(b.len() > 0) by {
            assert(d.contains(a[0]));
            assert(b.contains(a[0]));
        }
        assert(a[0] == b[0]) by {
            assert(d.contains(b[0]) && a.contains(b[0]));
            assert(d.contains(a[0]) && b.contains(a[0]));
            let ja = choose|j: int| 0 <= j < a.len() && a[j] == b[0];
            let jb = choose|j: int| 0 <= j < b.len() && b[j] == a[0];
            if ja > 0 {
                assert(a[0] < a[ja]);
            }
            if jb > 0 {
                assert(b[0] < b[jb]);
            }
        }
        let d2 = d.remove(a[0]);
        let a2 = a.drop_first();
        let b2 = b.drop_first();
        assert forall|x: int| a2.contains(x) <==> d2.contains(x) by {
            if a2.contains(x) {
                let j = choose|j: int| 0 <= j < a2.len() && a2[j] == x;
                assert(a[j + 1] == x);
                assert(a[0] < a[j + 1]);
                assert(a.contains(x));
            }
            if d2.contains(x) {
                assert(a.contains(x));
                let j = choose|j: int| 0 <= j < a.len() && a[j] == x;
                assert(j != 0);
                assert(a2[j - 1] == x);
            }
        }
        assert forall|x: int| b2.contains(x) <==> d2.contains(x) by {
            if b2.contains(x) {
                let j = choose|j: int| 0 <= j < b2.len() && b2[j] == x;
                assert(b[j + 1] == x);
                assert(b[0] < b[j + 1]);
                assert(b.contains(x));
            }
            if d2.contains(x) {
                assert(b.contains(x));
                let j = choose|j: int| 0 <= j < b.len() && b[j] == x;
                assert(j != 0);
                assert(b2[j - 1] == x);
            }
        }
        lemma_sorted_listing_unique(a2, b2, d2);
        assert(a =~= b) by {
            assert forall|k: int| 0 <= k < a.len() implies a[k] == b[k] by {
                if k > 0 {
                    assert(a[k] == a2[k - 1]);
                    assert(b[k] == b2[k - 1]);
                }
            }
        }
    }
}

/// An increasing sequence of `i32` values whose members are those of `d` lists `d` in
/// increasing order.
pub proof fn lemma_sorted_elems_of(r: Seq<i32>, d: Set<int>)
    requires
        forall|j: int, k: int| 0 <= j < k < r.len() ==> r[j] < r[k],
        forall|x: int| seq_has(r, x) <==> d.contains(x),
    ensures
        r.map_values(|v: i32| v as int) == sorted_elems(d),
        sorted_listing(r.map_values(|v: i32| v as int), d),
{
    let vals = r.map_values(|v: i32| v as int);
    assert forall|x: int| vals.contains(x) <==> d.contains(x) by {
        if vals.contains(x) {
            let k = choose|k: int| 0 <= k < vals.len() && vals[k] == x;
            assert(r[k] == x);
            assert(seq_has(r, x));
        }
        if d.contains(x) {
            assert(seq_has(r, x));
            let k = choose|k: int| 0 <= k < r.len() && r[k] == x;
            assert(vals[k] == x);
        }
    }
    assert(sorted_listing(vals, d));
    let q = choose|q: Seq<int>| sorted_listing(q, d);
    assert(sorted_listing(q, d));
    lemma_sorted_listing_unique(vals, q, d);
}

/// Store after the value `v` of the term `i` is checked: it leaves the term's variable
/// when, with it, the bounds of the sum pin the sum to `rhs`.
pub open spec fn ne_value_step(s: Seq<Set<int>>, coeffs: Seq<i32>, vars: Seq<VariableId>, rhs: int, i: int, v: int) -> Seq<Set<int>> {
    let c = clamp_i32_spec(coeffs[i] * v);
    let x = vars[i].index as int;
    if c + sum_min_excl(s, coeffs, vars, i, vars.len()) == rhs && c + sum_max_excl(s, coeffs, vars, i, vars.len()) == rhs {
        s.update(x, s[x].remove(v))
    } else {
        s
    }
}

/// Store after the first `k` values of `vals` are checked for the term `i`, in order.
pub open spec fn ne_values(s: Seq<Set<int>>, coeffs: Seq<i32>, vars: Seq<VariableId>, rhs: int, i: int, vals: Seq<int>, k: nat) -> Seq<Set<int>>
    decreases k,
{
    if k == 0 {
        s
    } else {
        ne_value_step(ne_values(s, coeffs, vars, rhs, i, vals, (k - 1) as nat), coeffs, vars, rhs, i, vals[k - 1])
    }
}

/// Store after the first `k` terms have each had their values checked in increasing
/// order.
pub open spec fn ne_pass(s: Seq<Set<int>>, coeffs: Seq<i32>, vars: Seq<VariableId>, rhs: int, k: nat) -> Seq<Set<int>>
    decreases k,
{
    if k == 0 {
        s
    } else {
        let t = ne_pass(s, coeffs, vars, rhs, (k - 1) as nat);
        let vals = sorted_elems(t[vars[k - 1].index as int]);
        ne_values(t, coeffs, vars, rhs, k - 1, vals, vals.len())
    }
}

/// Removes, term by term and value by value in increasing order, each value that would
/// pin the sum to `rhs` (see [`ne_pass`]); fails when a domain of `vars` is empty.
pub fn propagate_scalar_not_eq(store: &mut DomainStore, coeffs: &Vec<i32>, vars: &Vec<VariableId>, rhs: i32) -> (status: PropagationStatus)
    requires
        vars_in_range(vars@, old(store)@.len()),
        coeffs@.len() >= vars@.len(),
    ensures
        final(store)@ == ne_pass(old(store)@, coeffs@, vars@, rhs as int, vars@.len()),
        status == vars_status(old(store)@, final(store)@, vars@),
        narrows(old(store)@, final(store)@),
{
    let ghost s0 = store@;
    let n = vars.len();
    let mut changed = false;
    let mut i: usize = 0;
    proof {
        assert(narrows(s0, s0));
    }
    while i < n
        invariant
            0 <= i <= n,
            n == vars@.len(),
            coeffs@.len() >= vars@.len(),
            store@.len() == s0.len(),
            vars_in_range(vars@, s0.len()),
            store@ == ne_pass(s0, coeffs@, vars@, rhs as int, i as nat),
            narrows(s0, store@),
            changed == (store@ != s0),
        decreases n - i,
    {
        let ghost t = store@;
        let var = vars[i];
        let coeff = coeffs[i];
        let values = store.values(var);
        let ghost vals = values@.map_values(|v: i32| v as int);
        proof {
            assert(sorted_listing(vals, t[var.index as int])) by {
                assert forall|x: int| vals.contains(x) <==> t[var.index as int].contains(x) by {
                    if vals.contains(x) {
                        let k = choose|k: int| 0 <= k < vals.len() && vals[k] == x;
                        assert(t[var.index as int].contains(values@[k] as int));
                    }
                    if t[var.index as int].contains(x) {
                        assert(seq_has(values@, x));
                        let k = choose|k: int| 0 <= k < values@.len() && values@[k] == x;
                        assert(vals[k] == x);
                    }
                }
            }
            lemma_sorted_listing_unique(vals, sorted_elems(t[var.index as int]), t[var.index as int]);
        }
        let mut k: usize = 0;
        while k < values.len()
            invariant
                0 <= k <= values@.len(),
                i < n,
                n == vars@.len(),
                var == vars@[i as int],
                coeff == coeffs@[i as int],
                coeffs@.len() >= vars@.len(),
                store@.len() == s0.len(),
                vars_in_range(vars@, s0.len()),
                vals == values@.map_values(|v: i32| v as int),
                store@ == ne_values(t, coeffs@, vars@, rhs as int, i as int, vals, k as nat),
                narrows(s0, store@),
                changed == (store@ != s0),
            decreases values@.len() - k,
        {
            let value = values[k];
            proof {
                assert(-0x8000_0000 * 0x8000_0000 <= coeff * value <= 0x8000_0000 * 0x8000_0000) by (nonlinear_arith)
                    requires
                        i32::MIN <= coeff <= i32::MAX,
                        i32::MIN <= value <= i32::MAX,
                ;
            }
            let contribution = clamp_i32(coeff as i64 * value as i64);
            let lo = sum_excluding(store, coeffs, vars, i, false);
            let hi = sum_excluding(store, coeffs, vars, i, true);
            proof {
                lemma_sum_bounds(store@, coeffs@, vars@, i as int, vars@.len());
                assert(i32::MIN * n >= -0x8000_0000 * 0x1_0000_0000_0000_0000) by (nonlinear_arith)
                    requires
                        0 <= n < 0x1_0000_0000_0000_0000,
                ;
                assert(i32::MAX * n <= 0x8000_0000 * 0x1_0000_0000_0000_0000) by (nonlinear_arith)
                    requires
                        0 <= n < 0x1_0000_0000_0000_0000,
                ;
                assert(vals[k as int] == value);
            }
            let min_t = contribution as i128 + lo;
            let max_t = contribution as i128 + hi;
            if min_t == max_t && min_t == rhs as i128 {
                let ghost u = store@;
                let step = store.remove_value(var, value);
                proof {
                    lemma_narrow_step(s0, u, store@, changed, step);
                }
                changed = changed || step;
            }
            k = k + 1;
        }
        proof {
            assert(vals.len() == values@.len());
        }
        i = i + 1;
    }
    if any_var_empty(store, vars) {
        PropagationStatus::Failure
    } else if changed {
        PropagationStatus::OkChanged
    } else {
        PropagationStatus::OkNoChange
    }
}


/// The value of a fixed reification domain.
pub open spec fn reif_lit(d: Set<int>) -> Option<int> {
    if is_fixed(d) { Some(least(d)) } else { None }
}

/// `q` without the occurrences of `r`.
pub open spec fn without_var(q: Seq<VariableId>, r: VariableId) -> Seq<VariableId>
    decreases q.len(),
{
    if q.len() == 0 {
        q
    } else {
        without_var(q.drop_last(), r) + if q.last() == r { Seq::<VariableId>::empty() } else { seq![q.last()] }
    }
}

proof fn lemma_without_var_len(q: Seq<VariableId>, r: VariableId)
    ensures
        without_var(q, r).len() <= q.len(),
        q.len() > 0 && q.last() == r ==> without_var(q, r).len() <= q.len() - 1,
        forall|i: int| 0 <= i < without_var(q, r).len() ==> q.contains(#[trigger] without_var(q, r)[i]),
    decreases q.len(),
{
    if q.len() > 0 {
        lemma_without_var_len(q.drop_last(), r);
        let w = without_var(q.drop_last(), r);
        assert forall|i: int| 0 <= i < without_var(q, r).len() implies q.contains(#[trigger] without_var(q, r)[i]) by {
            if i < w.len() {
                assert(without_var(q, r)[i] == w[i]);
                assert(q.drop_last().contains(w[i]));
                let j = choose|j: int| 0 <= j < q.drop_last().len() && q.drop_last()[j] == w[i];
                assert(q[j] == w[i]);
            } else {
                assert(without_var(q, r)[i] == q.last());
                assert(q[q.len() - 1] == q.last());
            }
        }
    }
}

/// The variables of `watched` other than `reif`.
fn vars_without(watched: &Vec<VariableId>, reif: VariableId) -> (out: Vec<VariableId>)
    ensures
        out@ == without_var(watched@, reif),
{
    let mut out: Vec<VariableId> = Vec::new();
    let mut i: usize = 0;
    while i < watched.len()
        invariant
            0 <= i <= watched@.len(),
            out@ == without_var(watched@.take(i as int), reif),
        decreases watched@.len() - i,
    {
        proof {
            assert(watched@.take(i + 1).drop_last() =~= watched@.take(i as int));
        }
        let v = watched[i];
        if v.index != reif.index {
            out.push(v);
            proof {
                assert(out@ =~= without_var(watched@.take(i as int), reif) + seq![v]);
            }
        } else {
            proof {
                assert(v == reif);
                assert(out@ =~= without_var(watched@.take(i as int), reif) + Seq::<VariableId>::empty());
            }
        }
        i = i + 1;
    }
    proof {
        assert(watched@.take(i as int) =~= watched@);
    }
    out
}

/// The fixed value of `reif`, if any.
fn reif_literal(store: &DomainStore, reif: VariableId) -> (r: Option<i32>)
    requires
        reif.index < store@.len(),
    ensures
        r is Some <==> reif_lit(store@[reif.index as int]) is Some,
        r matches Some(x) ==> reif_lit(store@[reif.index as int]) == Some(x as int),
{
    match store.fixed_value(reif) {
        Some(v) => {
            proof {
                assert(store@[reif.index as int].contains(v as int));
                assert(crate::domain::is_least(store@[reif.index as int], v as int));
                lemma_least_is(store@[reif.index as int], v as int);
            }
            Some(v)
        },
        None => {
            proof {
                assert(!is_fixed(store@[reif.index as int]));
            }
            None
        },
    }
}

/// The sum's bounds on the store `s` decide the relation: `Some(true)` when it surely
/// holds, `Some(false)` when it surely fails, for `<=` (`kind` 0), `>=` (`kind` 1) and
/// `==` (`kind` 2) against `rhs`.
pub open spec fn sum_verdict(s: Seq<Set<int>>, coeffs: Seq<i32>, vars: Seq<VariableId>, rhs: int, kind: int) -> Option<bool> {
    let mn = min_total(s, coeffs, vars);
    let mx = max_total(s, coeffs, vars);
    if kind == 0 {
        if mx <= rhs { Some(true) } else if mn > rhs { Some(false) } else { None }
    } else if kind == 1 {
        if mn >= rhs { Some(true) } else if mx < rhs { Some(false) } else { None }
    } else {
        if mn == mx && mn == rhs { Some(true) } else if mn > rhs || mx < rhs { Some(false) } else { None }
    }
}

/// `s` with `reif` pinned by the verdict of [`sum_verdict`].
pub open spec fn pin_by_verdict(s: Seq<Set<int>>, reif: int, verdict: Option<bool>) -> Seq<Set<int>> {
    match verdict {
        Some(true) => pin(s, reif, 1),
        Some(false) => pin(s, reif, 0),
        None => s,
    }
}

/// Store and status after a reified scalar propagation: `pre` is the store and status
/// of the pass that the reification's value called for (`None` when it called for
/// none); a failing pass ends it; otherwise `reif` is pinned by the sum's bounds and
/// the status reads `watched`.
pub open spec fn reif_finish(
    s0: Seq<Set<int>>,
    pre: Option<(Seq<Set<int>>, PropagationStatus)>,
    coeffs: Seq<i32>,
    vars: Seq<VariableId>,
    rhs: int,
    kind: int,
    reif: int,
    watched: Seq<VariableId>,
) -> (Seq<Set<int>>, PropagationStatus) {
    match pre {
        Some((t, PropagationStatus::Failure)) => (t, PropagationStatus::Failure),
        _ => {
            let s1 = match pre {
                Some((t, _)) => t,
                None => s0,
            };
            let s2 = pin_by_verdict(s1, reif, sum_verdict(s1, coeffs, vars, rhs, kind));
            (s2, vars_status(s0, s2, watched))
        },
    }
}

/// The pass that the reification's value calls for under `reif <=> sum <= rhs`.
pub open spec fn reif_le_pre(s0: Seq<Set<int>>, coeffs: Seq<i32>, vars: Seq<VariableId>, rhs: int, reif: int) -> Option<(Seq<Set<int>>, PropagationStatus)> {
    let lit = reif_lit(s0[reif]);
    if lit == Some(1int) {
        Some(scalar_outcome(s0, coeffs, vars, rhs, false))
    } else if lit == Some(0int) && rhs < i32::MAX {
        Some(scalar_outcome(s0, coeffs, vars, rhs + 1, true))
    } else {
        None
    }
}

/// The pass that the reification's value calls for under `reif <=> sum >= rhs`.
pub open spec fn reif_ge_pre(s0: Seq<Set<int>>, coeffs: Seq<i32>, vars: Seq<VariableId>, rhs: int, reif: int) -> Option<(Seq<Set<int>>, PropagationStatus)> {
    let lit = reif_lit(s0[reif]);
    if lit == Some(1int) {
        Some(scalar_outcome(s0, coeffs, vars, rhs, true))
    } else if lit == Some(0int) && rhs > i32::MIN {
        Some(scalar_outcome(s0, coeffs, vars, rhs - 1, false))
    } else {
        None
    }
}

/// The passes that the reification's value calls for under `reif <=> sum == rhs`:
/// both bound passes when true; when false, failure if the bounds pin the sum to `rhs`,
/// else the removal of values that would.
pub open spec fn reif_eq_pre(s0: Seq<Set<int>>, coeffs: Seq<i32>, vars: Seq<VariableId>, rhs: int, reif: int) -> Option<(Seq<Set<int>>, PropagationStatus)> {
    let lit = reif_lit(s0[reif]);
    if lit == Some(1int) {
        let (t1, st1) = scalar_outcome(s0, coeffs, vars, rhs, false);
        if st1 == PropagationStatus::Failure {
            Some((t1, st1))
        } else {
            let (t2, st2) = scalar_outcome(t1, coeffs, vars, rhs, true);
            Some((t2, st2))
        }
    } else if lit == Some(0int) {
        if min_total(s0, coeffs, vars) == max_total(s0, coeffs, vars) && min_total(s0, coeffs, vars) == rhs {
            Some((s0, PropagationStatus::Failure))
        } else {
            Some((ne_pass(s0, coeffs, vars, rhs, vars.len()), PropagationStatus::OkNoChange))
        }
    } else {
        None
    }
}


/// The pass that the reification's value calls for, by relation: `<=` (`kind` 0), `>=`
/// (`kind` 1) or `==` (`kind` 2).
pub open spec fn reif_pre(kind: int, s0: Seq<Set<int>>, coeffs: Seq<i32>, vars: Seq<VariableId>, rhs: int, reif: int) -> Option<(Seq<Set<int>>, PropagationStatus)> {
    if kind == 0 {
        reif_le_pre(s0, coeffs, vars, rhs, reif)
    } else if kind == 1 {
        reif_ge_pre(s0, coeffs, vars, rhs, reif)
    } else {
        reif_eq_pre(s0, coeffs, vars, rhs, reif)
    }
}

/// Store and status after propagating `reif <=> sum(coeffs * vars) REL rhs` on `s0`,
/// where `watched` is `vars` followed by `reif`.
pub open spec fn reified_scalar_outcome(
    kind: int,
    s0: Seq<Set<int>>,
    coeffs: Seq<i32>,
    watched: Seq<VariableId>,
    rhs: int,
    reif: VariableId,
) -> (Seq<Set<int>>, PropagationStatus) {
    let vars = without_var(watched, reif);
    reif_finish(s0, reif_pre(kind, s0, coeffs, vars, rhs, reif.index as int), coeffs, vars, rhs, kind, reif.index as int, watched)
}

/// A reified scalar relation is well formed: `watched` is the terms' variables followed
/// by `reif`, one coefficient per term, every variable in the store.
pub open spec fn reified_shape(coeffs: Seq<i32>, watched: Seq<VariableId>, reif: VariableId, n: nat) -> bool {
    &&& watched.len() == coeffs.len() + 1
    &&& watched.last() == reif
    &&& vars_in_range(watched, n)
}

/// Runs a reified scalar propagation (see [`reified_scalar_outcome`]).
fn propagate_reified_scalar(store: &mut DomainStore, coeffs: &Vec<i32>, watched: &Vec<VariableId>, rhs: i32, reif: VariableId, kind: u8) -> (status: PropagationStatus)
    requires
        reified_shape(coeffs@, watched@, reif, old(store)@.len()),
        kind <= 2,
    ensures
        (final(store)@, status) == reified_scalar_outcome(kind as int, old(store)@, coeffs@, watched@, rhs as int, reif),
{
    let ghost s0 = store@;
    let vars = vars_without(watched, reif);
    proof {
        lemma_without_var_len(watched@, reif);
        assert(vars_in_range(vars@, s0.len())) by {
            assert forall|i: int| 0 <= i < vars@.len() implies (#[trigger] vars@[i]).index < s0.len() by {
                assert(watched@.contains(vars@[i]));
                let j = choose|j: int| 0 <= j < watched@.len() && watched@[j] == vars@[i];
            }
        }
        assert(reif.index < s0.len()) by {
            assert(watched@[watched@.len() - 1] == reif);
        }
        assert(narrows(s0, s0));
    }
    let ghost pre = reif_pre(kind as int, s0, coeffs@, vars@, rhs as int, reif.index as int);
    let lit = reif_literal(store, reif);
    let mut changed = false;
    if kind == 0 {
        if lit == Some(1i32) {
            let st = propagate_scalar_le(store, coeffs, &vars, rhs);
            if st == PropagationStatus::Failure {
                return st;
            }
            changed = st == PropagationStatus::OkChanged;
        } else if lit == Some(0i32) && rhs < i32::MAX {
            let st = propagate_scalar_ge(store, coeffs, &vars, rhs + 1);
            if st == PropagationStatus::Failure {
                return st;
            }
            changed = st == PropagationStatus::OkChanged;
        }
    } else if kind == 1 {
        if lit == Some(1i32) {
            let st = propagate_scalar_ge(store, coeffs, &vars, rhs);
            if st == PropagationStatus::Failure {
                return st;
            }
            changed = st == PropagationStatus::OkChanged;
        } else if lit == Some(0i32) && rhs > i32::MIN {
            let st = propagate_scalar_le(store, coeffs, &vars, rhs - 1);
            if st == PropagationStatus::Failure {
                return st;
            }
            changed = st == PropagationStatus::OkChanged;
        }
    } else {
        if lit == Some(1i32) {
            let st = propagate_scalar_le(store, coeffs, &vars, rhs);
            if st == PropagationStatus::Failure {
                return st;
            }
            let ghost t1 = store@;
            let st2 = propagate_scalar_ge(store, coeffs, &vars, rhs);
            if st2 == PropagationStatus::Failure {
                return st2;
            }
            proof {
                lemma_narrow_step(s0, t1, store@, st == PropagationStatus::OkChanged, st2 == PropagationStatus::OkChanged);
            }
            changed = st == PropagationStatus::OkChanged || st2 == PropagationStatus::OkChanged;
        } else if lit == Some(0i32) {
            let n = vars.len();
            let lo = sum_excluding(store, coeffs, &vars, n, false);
            let hi = sum_excluding(store, coeffs, &vars, n, true);
            proof {
                lemma_sum_skip_out(s0, coeffs@, vars@, n as int, vars@.len());
            }
            if lo == hi && lo == rhs as i128 {
                return PropagationStatus::Failure;
            }
            let st = propagate_scalar_not_eq(store, coeffs, &vars, rhs);
            changed = st == PropagationStatus::OkChanged;
        }
    }
    let ghost s1 = store@;
    proof {
        assert(narrows(s0, s1));
        assert(pre is Some ==> pre.unwrap().0 == s1 && pre.unwrap().1 != PropagationStatus::Failure);
        assert(pre is None ==> s1 == s0);
        if !(changed == (s1 != s0)) {
            assert(kind == 2 && lit == Some(0i32));
            assert(some_var_empty(s1, vars@));
        }
    }
    let ghost changed1 = changed;
    let n = vars.len();
    let mn = sum_excluding(store, coeffs, &vars, n, false);
    let mx = sum_excluding(store, coeffs, &vars, n, true);
    proof {
        lemma_sum_skip_out(s1, coeffs@, vars@, n as int, vars@.len());
    }
    let verdict: Option<bool> = if kind == 0 {
        if mx <= rhs as i128 {
            Some(true)
        } else if mn > rhs as i128 {
            Some(false)
        } else {
            None
        }
    } else if kind == 1 {
        if mn >= rhs as i128 {
            Some(true)
        } else if mx < rhs as i128 {
            Some(false)
        } else {
            None
        }
    } else {
        if mn == mx && mn == rhs as i128 {
            Some(true)
        } else if mn > rhs as i128 || mx < rhs as i128 {
            Some(false)
        } else {
            None
        }
    };
    proof {
        assert(verdict == sum_verdict(s1, coeffs@, vars@, rhs as int, kind as int));
    }
    match verdict {
        Some(true) => {
            let step = store.restrict(reif, 1, 1);
            proof {
                lemma_narrow_step(s0, s1, store@, s1 != s0, step);
            }
            changed = changed || step;
        },
        Some(false) => {
            let step = store.restrict(reif, 0, 0);
            proof {
                lemma_narrow_step(s0, s1, store@, s1 != s0, step);
            }
            changed = changed || step;
        },
        None => {},
    }
    proof {
        let s2 = store@;
        if some_var_empty(s1, vars@) {
            let i = choose|i: int| 0 <= i < vars@.len() && s1[(#[trigger] vars@[i]).index as int].is_empty();
            assert(watched@.contains(vars@[i]));
            let j = choose|j: int| 0 <= j < watched@.len() && watched@[j] == vars@[i];
            assert(s2[watched@[j].index as int].subset_of(s1[watched@[j].index as int]));
            assert(s2[watched@[j].index as int].is_empty());
            assert(some_var_empty(s2, watched@));
        }
        if verdict is None {
            assert(s2 == s1);
        }
    }
    if any_var_empty(store, watched) {
        PropagationStatus::Failure
    } else if changed {
        PropagationStatus::OkChanged
    } else {
        PropagationStatus::OkNoChange
    }
}


/// Propagates `sum(coeffs[i] * vars[i]) <= rhs` with bound consistency.
pub struct LinearScalarLePropagator {
    /// The variables of the terms.
    pub watched: Vec<VariableId>,
    /// One coefficient per term.
    pub coeffs: Vec<i32>,
    /// The bound.
    pub rhs: i32,
}

impl LinearScalarLePropagator {
    /// Creates the propagator for the terms `coeffs[i] * vars[i]` and the bound `rhs`.
    pub fn new(coeffs: Vec<i32>, vars: Vec<VariableId>, rhs: i32) -> (p: Self)
        requires
            coeffs@.len() == vars@.len(),
        ensures
            p.watched@ == vars@,
            p.coeffs@ == coeffs@,
            p.rhs == rhs,
    {
        LinearScalarLePropagator { watched: vars, coeffs, rhs }
    }

    /// The variables whose domains this propagator reads.
    pub fn watched_variables(&self) -> (w: &Vec<VariableId>)
        ensures
            w@ == self.watched@,
    {
        &self.watched
    }

    /// One pass of bound cuts: see [`scalar_outcome`].
    pub fn propagate(&mut self, store: &mut DomainStore) -> (status: PropagationStatus)
        requires
            vars_in_range(old(self).watched@, old(store)@.len()),
            old(self).coeffs@.len() == old(self).watched@.len(),
        ensures
            *final(self) == *old(self),
            (final(store)@, status) == scalar_outcome(
                old(store)@,
                old(self).coeffs@,
                old(self).watched@,
                old(self).rhs as int,
                false,
            ),
    {
        propagate_scalar_le(store, &self.coeffs, &self.watched, self.rhs)
    }
}

/// Propagates `sum(coeffs[i] * vars[i]) >= rhs` with bound consistency.
pub struct LinearScalarGePropagator {
    /// The variables of the terms.
    pub watched: Vec<VariableId>,
    /// One coefficient per term.
    pub coeffs: Vec<i32>,
    /// The bound.
    pub rhs: i32,
}

impl LinearScalarGePropagator {
    /// Creates the propagator for the terms `coeffs[i] * vars[i]` and the bound `rhs`.
    pub fn new(coeffs: Vec<i32>, vars: Vec<VariableId>, rhs: i32) -> (p: Self)
        requires
            coeffs@.len() == vars@.len(),
        ensures
            p.watched@ == vars@,
            p.coeffs@ == coeffs@,
            p.rhs == rhs,
    {
        LinearScalarGePropagator { watched: vars, coeffs, rhs }
    }

    /// The variables whose domains this propagator reads.
    pub fn watched_variables(&self) -> (w: &Vec<VariableId>)
        ensures
            w@ == self.watched@,
    {
        &self.watched
    }

    /// One pass of bound cuts: see [`scalar_outcome`].
    pub fn propagate(&mut self, store: &mut DomainStore) -> (status: PropagationStatus)
        requires
            vars_in_range(old(self).watched@, old(store)@.len()),
            old(self).coeffs@.len() == old(self).watched@.len(),
        ensures
            *final(self) == *old(self),
            (final(store)@, status) == scalar_outcome(
                old(store)@,
                old(self).coeffs@,
                old(self).watched@,
                old(self).rhs as int,
                true,
            ),
    {
        propagate_scalar_ge(store, &self.coeffs, &self.watched, self.rhs)
    }
}

/// Propagates `reif == 1 <=> sum(coeffs[i] * vars[i]) <= rhs`.
pub struct ReifiedScalarLePropagator {
    /// The variables of the terms, followed by `reif`.
    pub watched: Vec<VariableId>,
    /// One coefficient per term.
    pub coeffs: Vec<i32>,
    /// The bound.
    pub rhs: i32,
    /// The 0/1 variable that stands for the relation.
    pub reif: VariableId,
}

impl ReifiedScalarLePropagator {
    /// Creates the propagator for the terms `coeffs[i] * vars[i]`, the bound `rhs` and
    /// the reification `reif`.
    pub fn new(coeffs: Vec<i32>, vars: Vec<VariableId>, rhs: i32, reif: VariableId) -> (p: Self)
        requires
            coeffs@.len() == vars@.len(),
        ensures
            p.watched@ == vars@.push(reif),
            p.coeffs@ == coeffs@,
            p.rhs == rhs,
            p.reif == reif,
    {
        let mut watched = vars;
        watched.push(reif);
        ReifiedScalarLePropagator { watched, coeffs, rhs, reif }
    }

    /// The variables whose domains this propagator reads.
    pub fn watched_variables(&self) -> (w: &Vec<VariableId>)
        ensures
            w@ == self.watched@,
    {
        &self.watched
    }

    /// Scheduling priority: propagators with a lower number run first.
    pub fn priority(&self) -> (p: u32)
        ensures
            p == 13,
    {
        13
    }

    /// See [`reified_scalar_outcome`].
    pub fn propagate(&mut self, store: &mut DomainStore) -> (status: PropagationStatus)
        requires
            reified_shape(old(self).coeffs@, old(self).watched@, old(self).reif, old(store)@.len()),
        ensures
            *final(self) == *old(self),
            (final(store)@, status) == reified_scalar_outcome(
                0,
                old(store)@,
                old(self).coeffs@,
                old(self).watched@,
                old(self).rhs as int,
                old(self).reif,
            ),
    {
        propagate_reified_scalar(store, &self.coeffs, &self.watched, self.rhs, self.reif, 0)
    }
}

/// Propagates `reif == 1 <=> sum(coeffs[i] * vars[i]) >= rhs`.
pub struct ReifiedScalarGePropagator {
    /// The variables of the terms, followed by `reif`.
    pub watched: Vec<VariableId>,
    /// One coefficient per term.
    pub coeffs: Vec<i32>,
    /// The bound.
    pub rhs: i32,
    /// The 0/1 variable that stands for the relation.
    pub reif: VariableId,
}

impl ReifiedScalarGePropagator {
    /// Creates the propagator for the terms `coeffs[i] * vars[i]`, the bound `rhs` and
    /// the reification `reif`.
    pub fn new(coeffs: Vec<i32>, vars: Vec<VariableId>, rhs: i32, reif: VariableId) -> (p: Self)
        requires
            coeffs@.len() == vars@.len(),
        ensures
            p.watched@ == vars@.push(reif),
            p.coeffs@ == coeffs@,
            p.rhs == rhs,
            p.reif == reif,
    {
        let mut watched = vars;
        watched.push(reif);
        ReifiedScalarGePropagator { watched, coeffs, rhs, reif }
    }

    /// The variables whose domains this propagator reads.
    pub fn watched_variables(&self) -> (w: &Vec<VariableId>)
        ensures
            w@ == self.watched@,
    {
        &self.watched
    }

    /// Scheduling priority: propagators with a lower number run first.
    pub fn priority(&self) -> (p: u32)
        ensures
            p == 13,
    {
        13
    }

    /// See [`reified_scalar_outcome`].
    pub fn propagate(&mut self, store: &mut DomainStore) -> (status: PropagationStatus)
        requires
            reified_shape(old(self).coeffs@, old(self).watched@, old(self).reif, old(store)@.len()),
        ensures
            *final(self) == *old(self),
            (final(store)@, status) == reified_scalar_outcome(
                1,
                old(store)@,
                old(self).coeffs@,
                old(self).watched@,
                old(self).rhs as int,
                old(self).reif,
            ),
    {
        propagate_reified_scalar(store, &self.coeffs, &self.watched, self.rhs, self.reif, 1)
    }
}

/// Propagates `reif == 1 <=> sum(coeffs[i] * vars[i]) == rhs`.
pub struct ReifiedScalarEqPropagator {
    /// The variables of the terms, followed by `reif`.
    pub watched: Vec<VariableId>,
    /// One coefficient per term.
    pub coeffs: Vec<i32>,
    /// The bound.
    pub rhs: i32,
    /// The 0/1 variable that stands for the relation.
    pub reif: VariableId,
}

impl ReifiedScalarEqPropagator {
    /// Creates the propagator for the terms `coeffs[i] * vars[i]`, the bound `rhs` and
    /// the reification `reif`.
    pub fn new(coeffs: Vec<i32>, vars: Vec<VariableId>, rhs: i32, reif: VariableId) -> (p: Self)
        requires
            coeffs@.len() == vars@.len(),
        ensures
            p.watched@ == vars@.push(reif),
            p.coeffs@ == coeffs@,
            p.rhs == rhs,
            p.reif == reif,
    {
        let mut watched = vars;
        watched.push(reif);
        ReifiedScalarEqPropagator { watched, coeffs, rhs, reif }
    }

    /// The variables whose domains this propagator reads.
    pub fn watched_variables(&self) -> (w: &Vec<VariableId>)
        ensures
            w@ == self.watched@,
    {
        &self.watched
    }

    /// Scheduling priority: propagators with a lower number run first.
    pub fn priority(&self) -> (p: u32)
        ensures
            p == 13,
    {
        13
    }

    /// See [`reified_scalar_outcome`].
    pub fn propagate(&mut self, store: &mut DomainStore) -> (status: PropagationStatus)
        requires
            reified_shape(old(self).coeffs@, old(self).watched@, old(self).reif, old(store)@.len()),
        ensures
            *final(self) == *old(self),
            (final(store)@, status) == reified_scalar_outcome(
                2,
                old(store)@,
                old(self).coeffs@,
                old(self).watched@,
                old(self).rhs as int,
                old(self).reif,
            ),
    {
        propagate_reified_scalar(store, &self.coeffs, &self.watched, self.rhs, self.reif, 2)
    }
}

} // verus!
