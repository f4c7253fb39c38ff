//! Bound-consistent propagation of `left + right == result`.
use vstd::prelude::*;

use crate::domain::{between, greatest, least, narrows, DomainStore, PropagationStatus, VariableId};
use crate::int_mod::is_fixed;
use crate::int_abs::within;
use crate::solutions::{
    assignment_in, assignment_on, has_solution, has_solution_on, keeps, keeps_on,
    lemma_assignment_narrows, lemma_assignment_on_narrows, lemma_progress_empty, lemma_progress_facts, lemma_progress_narrows, lemma_progress_start,
    progress, restrict_step,
};

verus! {

/// The constraint `left + right == result` on the variables at `li`, `ri` and `si`.
pub open spec fn sum_holds(li: int, ri: int, si: int) -> spec_fn(Seq<int>) -> bool {
    |sigma: Seq<int>| sigma[li] + sigma[ri] == sigma[si]
}

/// The sums and differences of bounds that the propagation computes fit in `i32`, for
/// non-empty domains `l`, `r`, `s`.
pub open spec fn sum_bounds_fit(l: Set<int>, r: Set<int>, s: Set<int>) -> bool {
    &&& (!l.is_empty() && !r.is_empty()) ==> i32::MIN <= least(l) + least(r) && greatest(l) + greatest(r)
        <= i32::MAX
    &&& (!r.is_empty() && !s.is_empty()) ==> i32::MIN <= least(s) - greatest(r) && greatest(s) - least(r)
        <= i32::MAX
    &&& (!l.is_empty() && !s.is_empty()) ==> i32::MIN <= least(s) - greatest(l) && greatest(s) - least(l)
        <= i32::MAX
}

/// Bounds of a non-empty subset of a finite set lie within the set's bounds.
proof fn lemma_subset_bounds(small: Set<int>, big: Set<int>)
    requires
        small.subset_of(big),
        !small.is_empty(),
        big.finite(),
    ensures
        least(big) <= least(small),
        greatest(small) <= greatest(big),
{
    vstd::set_lib::lemma_len_subset(small, big);
    crate::domain::lemma_least_exists(small);
    crate::domain::lemma_greatest_exists(small);
    crate::domain::lemma_least_exists(big);
    crate::domain::lemma_greatest_exists(big);
}

/// What the propagation guarantees of the summands and the sum once none is empty: each
/// summand within the sum's bounds minus the other's, and a variable whose two partners
/// were fixed fixed to the value that makes the sum hold.
pub open spec fn sum_cuts_hold(s0: Seq<Set<int>>, s: Seq<Set<int>>, li: int, ri: int, si: int) -> bool {
    &&& within(s[li], least(s0[si]) - greatest(s0[ri]), greatest(s0[si]) - least(s0[ri]))
    &&& within(s[ri], least(s0[si]) - greatest(s0[li]), greatest(s0[si]) - least(s0[li]))
    &&& within(s[si], least(s0[li]) + least(s0[ri]), greatest(s0[li]) + greatest(s0[ri]))
    &&& is_fixed(s0[li]) && is_fixed(s0[ri]) ==> s[si] == set![least(s0[li]) + least(s0[ri])]
    &&& is_fixed(s0[si]) && is_fixed(s0[ri]) ==> s[li] == set![least(s0[si]) - least(s0[ri])]
    &&& is_fixed(s0[si]) && is_fixed(s0[li]) ==> s[ri] == set![least(s0[si]) - least(s0[li])]
}

proof fn lemma_singleton_within(d: Set<int>, v: int)
    requires
        !d.is_empty(),
        within(d, v, v),
    ensures
        d == set![v],
{
    let x = d.choose();
    assert(d.contains(x));
    assert(d =~= set![v]);
}

proof fn lemma_sum_cuts(s0: Seq<Set<int>>, li: int, ri: int, si: int)
    requires
        0 <= li < s0.len() && 0 <= ri < s0.len() && 0 <= si < s0.len(),
        li != ri && li != si && ri != si,
        forall|i: int| 0 <= i < s0.len() ==> (#[trigger] s0[i]).finite(),
        ({
            let f = from_result_outcome(sum_bounds_outcome(s0, li, ri, si), li, ri, si);
            !f[li].is_empty() && !f[ri].is_empty() && !f[si].is_empty()
        }),
    ensures
        sum_cuts_hold(s0, from_result_outcome(sum_bounds_outcome(s0, li, ri, si), li, ri, si), li, ri, si),
{
    let s1 = cut_when(
        s0,
        !s0[li].is_empty() && !s0[ri].is_empty(),
        si,
        least(s0[li]) + least(s0[ri]),
        greatest(s0[li]) + greatest(s0[ri]),
    );
    let s2 = cut_when(
        s1,
        !s1[ri].is_empty() && !s1[si].is_empty(),
        li,
        least(s1[si]) - greatest(s1[ri]),
        greatest(s1[si]) - least(s1[ri]),
    );
    let s3 = sum_bounds_outcome(s0, li, ri, si);
    let f = from_result_outcome(s3, li, ri, si);
    let p1 = pin_from(s3, si, ri, li, false);
    let p2 = pin_from(p1, si, li, ri, false);
    assert(f == pin_from(p2, li, ri, si, true));
    // every domain of f lies in the matching one of s3, s2, s1 and s0
    assert(f[li].subset_of(p1[li]) && p1[li].subset_of(s3[li]));
    assert(f[ri].subset_of(p2[ri]) && p2[ri].subset_of(s3[ri]));
    assert(f[si].subset_of(s3[si]));
    assert(s3[li] == s2[li] && s3[si] == s2[si] && s2[si] == s1[si] && s2[ri] == s1[ri] && s1[ri] == s0[ri]);
    assert(s1[li] == s0[li]);
    assert(s3[ri].subset_of(s2[ri]) && s2[li].subset_of(s1[li]) && s1[si].subset_of(s0[si]));
    assert(!s3[li].is_empty() && !s3[ri].is_empty() && !s3[si].is_empty());
    assert(!s2[ri].is_empty() && !s1[li].is_empty() && !s1[si].is_empty());
    assert(!s0[li].is_empty() && !s0[ri].is_empty() && !s0[si].is_empty());
    lemma_subset_bounds(s1[si], s0[si]);
    lemma_subset_bounds(s2[li], s0[li]);
    lemma_subset_bounds(s2[si], s0[si]);
    assert(within(f[si], least(s0[li]) + least(s0[ri]), greatest(s0[li]) + greatest(s0[ri])));
    assert(within(f[li], least(s0[si]) - greatest(s0[ri]), greatest(s0[si]) - least(s0[ri])));
    assert(within(f[ri], least(s0[si]) - greatest(s0[li]), greatest(s0[si]) - least(s0[li])));
    if is_fixed(s0[li]) && is_fixed(s0[ri]) {
        let x = choose|v: int| s0[li] == set![v];
        let y = choose|v: int| s0[ri] == set![v];
        lemma_singleton_least(set![x], x);
        lemma_singleton_least(set![y], y);
        assert(set![x].contains(x) && set![y].contains(y));
        crate::domain::lemma_greatest_is(set![x], x);
        crate::domain::lemma_greatest_is(set![y], y);
        lemma_singleton_within(f[si], x + y);
    }
    if is_fixed(s0[si]) && is_fixed(s0[ri]) {
        let z = choose|v: int| s0[si] == set![v];
        let y = choose|v: int| s0[ri] == set![v];
        lemma_singleton_least(set![z], z);
        lemma_singleton_least(set![y], y);
        assert(set![z].contains(z) && set![y].contains(y));
        crate::domain::lemma_greatest_is(set![z], z);
        crate::domain::lemma_greatest_is(set![y], y);
        lemma_singleton_within(f[li], z - y);
    }
    if is_fixed(s0[si]) && is_fixed(s0[li]) {
        let z = choose|v: int| s0[si] == set![v];
        let x = choose|v: int| s0[li] == set![v];
        lemma_singleton_least(set![z], z);
        lemma_singleton_least(set![x], x);
        assert(set![z].contains(z) && set![x].contains(x));
        crate::domain::lemma_greatest_is(set![z], z);
        crate::domain::lemma_greatest_is(set![x], x);
        lemma_singleton_within(f[ri], z - x);
    }
}

/// Propagates `left + right == result` using bound consistency.
pub struct LinearEqPropagator {
    /// First summand.
    pub left: VariableId,
    /// Second summand.
    pub right: VariableId,
    /// The sum.
    pub result: VariableId,
}

/// Bounds read from the current domain of `x`, which narrows the original one.
proof fn lemma_bounds_of(s0: Seq<Set<int>>, s: Seq<Set<int>>, x: int, lo: int, hi: int)
    requires
        narrows(s0, s),
        0 <= x < s0.len(),
        crate::domain::is_least(s[x], lo),
        crate::domain::is_greatest(s[x], hi),
        s0[x].finite(),
    ensures
        least(s0[x]) <= lo,
        hi <= greatest(s0[x]),
        within(s[x], lo, hi),
{
    assert(s[x].subset_of(s0[x]));
    assert(s0[x].contains(lo));
    assert(s0[x].contains(hi));
    crate::domain::lemma_least_exists(s0[x]);
    crate::domain::lemma_greatest_exists(s0[x]);
}

/// Every solution still held by `s` gives `x` a value within the bounds of its current
/// domain.
proof fn lemma_solution_in(
    s0: Seq<Set<int>>,
    s: Seq<Set<int>>,
    cons: spec_fn(Seq<int>) -> bool,
    changed: bool,
    w: Set<int>,
    x: int,
    lo: int,
    hi: int,
)
    requires
        progress(s0, s, cons, changed, w),
        0 <= x < s.len(),
        w.contains(x),
        within(s[x], lo, hi),
    ensures
        forall|sigma: Seq<int>| assignment_on(s, sigma, w) && #[trigger] cons(sigma) ==> lo <= sigma[x] <= hi,
{
    assert forall|sigma: Seq<int>| assignment_on(s, sigma, w) && #[trigger] cons(sigma) implies lo <= sigma[x] <= hi by {
        assert(s[x].contains(sigma[x]));
    }
}

/// `s` with `x` cut to `lo..=hi` read as `lo` and `hi`, when `cond` holds.
pub open spec fn cut_when(s: Seq<Set<int>>, cond: bool, x: int, lo: int, hi: int) -> Seq<Set<int>> {
    if cond {
        s.update(x, between(s[x], lo, hi))
    } else {
        s
    }
}

/// Store after the bound cuts, in order: the sum to the sum of the summands' bounds,
/// `left` to the sum's bounds minus `right`'s, and `right` to the sum's bounds minus
/// `left`'s, each read on the store the cut before left, and each skipped when a domain
/// it reads is empty.
pub open spec fn sum_bounds_outcome(s: Seq<Set<int>>, li: int, ri: int, si: int) -> Seq<Set<int>> {
    let s1 = cut_when(
        s,
        !s[li].is_empty() && !s[ri].is_empty(),
        si,
        least(s[li]) + least(s[ri]),
        greatest(s[li]) + greatest(s[ri]),
    );
    let s2 = cut_when(
        s1,
        !s1[ri].is_empty() && !s1[si].is_empty(),
        li,
        least(s1[si]) - greatest(s1[ri]),
        greatest(s1[si]) - least(s1[ri]),
    );
    cut_when(
        s2,
        !s2[li].is_empty() && !s2[si].is_empty(),
        ri,
        least(s2[si]) - greatest(s2[li]),
        greatest(s2[si]) - least(s2[li]),
    )
}

/// Cuts `target` to `lo..=hi` when both bounds are available, keeping the solutions
/// that the caller shows to respect them.
fn cut_if_some(
    store: &mut DomainStore,
    target: VariableId,
    lo: Option<i64>,
    hi: Option<i64>,
    Ghost(s0): Ghost<Seq<Set<int>>>,
    Ghost(cons): Ghost<spec_fn(Seq<int>) -> bool>,
    Ghost(w): Ghost<Set<int>>,
    changed: bool,
) -> (r: bool)
    requires
        target.index < old(store)@.len(),
        w.contains(target.index as int),
        progress(s0, old(store)@, cons, changed, w),
        lo matches Some(v) ==> i32::MIN <= v <= i32::MAX,
        hi matches Some(v) ==> i32::MIN <= v <= i32::MAX,
        lo is Some <==> hi is Some,
        lo matches Some(a) ==> forall|sigma: Seq<int>|
            assignment_on(old(store)@, sigma, w) && #[trigger] cons(sigma) ==> a <= sigma[target.index as int],
        hi matches Some(b) ==> forall|sigma: Seq<int>|
            assignment_on(old(store)@, sigma, w) && #[trigger] cons(sigma) ==> sigma[target.index as int] <= b,
    ensures
        progress(s0, final(store)@, cons, r, w),
        narrows(old(store)@, final(store)@),
        match (lo, hi) {
            (Some(a), Some(b)) => within(final(store)@[target.index as int], a as int, b as int)
                && final(store)@ == old(store)@.update(
                target.index as int,
                between(old(store)@[target.index as int], a as int, b as int),
            ),
            _ => final(store)@ == old(store)@ && r == changed,
        },
{
    match (lo, hi) {
        (Some(a), Some(b)) => {
            let r = restrict_step(store, target, a as i32, b as i32, Ghost(s0), Ghost(cons), Ghost(w), changed);
            proof {
                assert(within(store@[target.index as int], a as int, b as int));
            }
            r
        },
        _ => {
            proof {
                assert(narrows(store@, store@));
            }
            changed
        },
    }
}

/// Store after `target` is pinned to `least(s[a]) - least(s[b])` (or the sum, when
/// `plus`) when `a` and `b` are both fixed.
pub open spec fn pin_from(s: Seq<Set<int>>, a: int, b: int, target: int, plus: bool) -> Seq<Set<int>> {
    if is_fixed(s[a]) && is_fixed(s[b]) {
        let v = if plus { least(s[a]) + least(s[b]) } else { least(s[a]) - least(s[b]) };
        s.update(target, between(s[target], v, v))
    } else {
        s
    }
}

/// Store after `left = result - right`, `right = result - left` and
/// `result = left + right` pin, in this order, each variable whose two partners are
/// fixed.
pub open spec fn from_result_outcome(s: Seq<Set<int>>, li: int, ri: int, si: int) -> Seq<Set<int>> {
    pin_from(pin_from(pin_from(s, si, ri, li, false), si, li, ri, false), li, ri, si, true)
}

/// A singleton is fixed, and its value is its least member.
proof fn lemma_singleton_least(d: Set<int>, v: int)
    requires
        d == set![v],
    ensures
        is_fixed(d),
        least(d) == v,
{
    crate::domain::lemma_least_is(d, v);
}

/// Pins a variable when the other two are fixed: `left = sum - right`,
/// `right = sum - left`, `result = left + right`.
fn from_result_step(
    store: &mut DomainStore,
    left: VariableId,
    right: VariableId,
    result: VariableId,
    Ghost(s0): Ghost<Seq<Set<int>>>,
    changed: bool,
) -> (r: bool)
    requires
        left.index < old(store)@.len(),
        right.index < old(store)@.len(),
        result.index < old(store)@.len(),
        progress(
            s0,
            old(store)@,
            sum_holds(left.index as int, right.index as int, result.index as int),
            changed,
            set![left.index as int, right.index as int, result.index as int],
        ),
        sum_bounds_fit(s0[left.index as int], s0[right.index as int], s0[result.index as int]),
        forall|i: int| 0 <= i < s0.len() ==> (#[trigger] s0[i]).finite(),
    ensures
        progress(
            s0,
            final(store)@,
            sum_holds(left.index as int, right.index as int, result.index as int),
            r,
            set![left.index as int, right.index as int, result.index as int],
        ),
        narrows(old(store)@, final(store)@),
        final(store)@ == from_result_outcome(old(store)@, left.index as int, right.index as int, result.index as int),
{
    let ghost li = left.index as int;
    let ghost ri = right.index as int;
    let ghost si = result.index as int;
    let ghost cons = sum_holds(li, ri, si);
    let ghost w = set![li, ri, si];
    let ghost entry = store@;
    let mut changed = changed;
    proof {
        assert(w.contains(li) && w.contains(ri) && w.contains(si));
        assert(narrows(entry, entry));
    }
    let ghost t0 = store@;
    let f_sum = store.fixed_value(result);
    let f_right = store.fixed_value(right);
    if let (Some(sum), Some(rfixed)) = (f_sum, f_right) {
        proof {
            lemma_singleton_least(t0[si], sum as int);
            lemma_singleton_least(t0[ri], rfixed as int);
            let s = store@;
            lemma_progress_narrows(s0, s, cons, changed, w);
            lemma_fixed_in(s0, s, si, sum as int);
            lemma_fixed_in(s0, s, ri, rfixed as int);
            assert forall|sigma: Seq<int>| assignment_on(s, sigma, w) && #[trigger] cons(sigma) implies sum - rfixed
                <= sigma[li] <= sum - rfixed by {
                assert(s[si].contains(sigma[si]));
                assert(s[ri].contains(sigma[ri]));
            }
        }
        let target = sum - rfixed;
        let ghost p = store@;
        changed = restrict_step(store, left, target, target, Ghost(s0), Ghost(cons), Ghost(w), changed);
        proof {
            crate::domain::lemma_narrows_trans(entry, p, store@);
        }
    }
    proof {
        assert(store@ == pin_from(t0, si, ri, li, false));
    }
    let ghost t1 = store@;
    let f_sum = store.fixed_value(result);
    let f_left = store.fixed_value(left);
    if let (Some(sum), Some(lfixed)) = (f_sum, f_left) {
        proof {
            lemma_singleton_least(t1[si], sum as int);
            lemma_singleton_least(t1[li], lfixed as int);
            let s = store@;
            lemma_progress_narrows(s0, s, cons, changed, w);
            lemma_fixed_in(s0, s, si, sum as int);
            lemma_fixed_in(s0, s, li, lfixed as int);
            assert forall|sigma: Seq<int>| assignment_on(s, sigma, w) && #[trigger] cons(sigma) implies sum - lfixed
                <= sigma[ri] <= sum - lfixed by {
                assert(s[si].contains(sigma[si]));
                assert(s[li].contains(sigma[li]));
            }
        }
        let target = sum - lfixed;
        let ghost p = store@;
        changed = restrict_step(store, right, target, target, Ghost(s0), Ghost(cons), Ghost(w), changed);
        proof {
            crate::domain::lemma_narrows_trans(entry, p, store@);
        }
    }
    proof {
        assert(store@ == pin_from(t1, si, li, ri, false));
    }
    let ghost t2 = store@;
    let f_left = store.fixed_value(left);
    let f_right = store.fixed_value(right);
    if let (Some(lfixed), Some(rfixed)) = (f_left, f_right) {
        proof {
            lemma_singleton_least(t2[li], lfixed as int);
            lemma_singleton_least(t2[ri], rfixed as int);
            let s = store@;
            lemma_progress_narrows(s0, s, cons, changed, w);
            lemma_fixed_in(s0, s, li, lfixed as int);
            lemma_fixed_in(s0, s, ri, rfixed as int);
            assert forall|sigma: Seq<int>| assignment_on(s, sigma, w) && #[trigger] cons(sigma) implies lfixed + rfixed
                <= sigma[si] <= lfixed + rfixed by {
                assert(s[li].contains(sigma[li]));
                assert(s[ri].contains(sigma[ri]));
            }
        }
        let target = lfixed + rfixed;
        let ghost p = store@;
        changed = restrict_step(store, result, target, target, Ghost(s0), Ghost(cons), Ghost(w), changed);
        proof {
            crate::domain::lemma_narrows_trans(entry, p, store@);
        }
    }
    proof {
        assert(store@ == pin_from(t2, li, ri, si, true));
    }
    changed
}

/// Cuts the sum to the sum of the summands' bounds, then each summand to the sum's
/// bounds minus the other's bounds.
fn sum_bounds_step(store: &mut DomainStore, left: VariableId, right: VariableId, result: VariableId) -> (r: bool)
    requires
    left.index < old(store)@.len(),
    right.index < old(store)@.len(),
    result.index < old(store)@.len(),
    sum_bounds_fit(
        old(store)@[left.index as int],
        old(store)@[right.index as int],
        old(store)@[result.index as int],
    ),
    ensures
    progress(
        old(store)@,
        final(store)@,
        sum_holds(left.index as int, right.index as int, result.index as int),
        r,
        set![left.index as int, right.index as int, result.index as int],
    ),
    !old(store)@[left.index as int].is_empty() && !old(store)@[right.index as int].is_empty() ==> within(
        final(store)@[result.index as int],
        least(old(store)@[left.index as int]) + least(old(store)@[right.index as int]),
        greatest(old(store)@[left.index as int]) + greatest(old(store)@[right.index as int]),
    ),
    final(store)@ == sum_bounds_outcome(old(store)@, left.index as int, right.index as int, result.index as int),
{
    let ghost li = left.index as int;
    let ghost ri = right.index as int;
    let ghost si = result.index as int;
    let ghost cons = sum_holds(li, ri, si);
    let ghost w = set![li, ri, si];
    let ghost s0 = store@;
    store.assert_in_range();
    proof {
    lemma_progress_start(s0, cons, w);
    assert(w.contains(li) && w.contains(ri) && w.contains(si));
    assert(narrows(s0, s0));
    }
    let mut changed = false;
    // result within [lmin + rmin, lmax + rmax]
    let (lo, hi) = match (store.min(left), store.max(left), store.min(right), store.max(right)) {
        (Some(lmin), Some(lmax), Some(rmin), Some(rmax)) => {
            proof {
                lemma_bounds_of(s0, s0, li, lmin as int, lmax as int);
                lemma_bounds_of(s0, s0, ri, rmin as int, rmax as int);
                crate::domain::lemma_least_is(s0[li], lmin as int);
                crate::domain::lemma_greatest_is(s0[li], lmax as int);
                crate::domain::lemma_least_is(s0[ri], rmin as int);
                crate::domain::lemma_greatest_is(s0[ri], rmax as int);
                lemma_solution_in(s0, s0, cons, changed, w, li, lmin as int, lmax as int);
                lemma_solution_in(s0, s0, cons, changed, w, ri, rmin as int, rmax as int);
            }
            (Some(lmin as i64 + rmin as i64), Some(lmax as i64 + rmax as i64))
        },
        _ => (None, None),
    };
    let ghost first_cut = lo is Some;
    changed = cut_if_some(store, result, lo, hi, Ghost(s0), Ghost(cons), Ghost(w), changed);
    let ghost s1 = store@;
    proof {
        lemma_progress_narrows(s0, s1, cons, changed, w);
        if first_cut {
            assert(within(
                s1[si],
                least(s0[li]) + least(s0[ri]),
                greatest(s0[li]) + greatest(s0[ri]),
            ));
        } else {
            assert(s0[li].is_empty() || s0[ri].is_empty());
        }
    }
    // left within [smin - rmax, smax - rmin]
    let (lo, hi) = match (store.min(right), store.max(right), store.min(result), store.max(result)) {
        (Some(rmin), Some(rmax), Some(smin), Some(smax)) => {
            proof {
                lemma_bounds_of(s0, s1, ri, rmin as int, rmax as int);
                lemma_bounds_of(s0, s1, si, smin as int, smax as int);
                lemma_solution_in(s0, s1, cons, changed, w, ri, rmin as int, rmax as int);
                lemma_solution_in(s0, s1, cons, changed, w, si, smin as int, smax as int);
            }
            (Some(smin as i64 - rmax as i64), Some(smax as i64 - rmin as i64))
        },
        _ => (None, None),
    };
    changed = cut_if_some(store, left, lo, hi, Ghost(s0), Ghost(cons), Ghost(w), changed);
    let ghost s2 = store@;
    proof {
        lemma_progress_narrows(s0, s2, cons, changed, w);
    }
    // right within [smin - lmax, smax - lmin]
    let (lo, hi) = match (store.min(left), store.max(left), store.min(result), store.max(result)) {
        (Some(lmin), Some(lmax), Some(smin), Some(smax)) => {
            proof {
                lemma_bounds_of(s0, s2, li, lmin as int, lmax as int);
                lemma_bounds_of(s0, s2, si, smin as int, smax as int);
                lemma_solution_in(s0, s2, cons, changed, w, li, lmin as int, lmax as int);
                lemma_solution_in(s0, s2, cons, changed, w, si, smin as int, smax as int);
            }
            (Some(smin as i64 - lmax as i64), Some(smax as i64 - lmin as i64))
        },
        _ => (None, None),
    };
    changed = cut_if_some(store, right, lo, hi, Ghost(s0), Ghost(cons), Ghost(w), changed);
    let ghost s3 = store@;
    proof {
        lemma_progress_narrows(s0, s3, cons, changed, w);
    }
    proof {
        if first_cut {
            crate::domain::lemma_narrows_trans(s1, s2, s3);
            crate::int_abs::lemma_within_subset(
                s3[si],
                s1[si],
                least(s0[li]) + least(s0[ri]),
                greatest(s0[li]) + greatest(s0[ri]),
            );
        }
    }
    changed
}

/// Cuts the sum to the sum of the summands' bounds and each summand to the sum's
/// bounds minus the other's; keeps every solution of `left + right == result`.
/// Returns whether a domain changed.
pub fn propagate_sum_bounds(store: &mut DomainStore, left: VariableId, right: VariableId, result: VariableId) -> (r: bool)
    requires
        left.index < old(store)@.len(),
        right.index < old(store)@.len(),
        result.index < old(store)@.len(),
        sum_bounds_fit(
            old(store)@[left.index as int],
            old(store)@[right.index as int],
            old(store)@[result.index as int],
        ),
    ensures
        narrows(old(store)@, final(store)@),
        keeps(old(store)@, final(store)@, sum_holds(left.index as int, right.index as int, result.index as int)),
        r == (final(store)@ != old(store)@),
        !old(store)@[left.index as int].is_empty() && !old(store)@[right.index as int].is_empty() ==> within(
            final(store)@[result.index as int],
            least(old(store)@[left.index as int]) + least(old(store)@[right.index as int]),
            greatest(old(store)@[left.index as int]) + greatest(old(store)@[right.index as int]),
        ),
{
    let r = sum_bounds_step(store, left, right, result);
    proof {
        lemma_progress_facts(
            old(store)@,
            store@,
            sum_holds(left.index as int, right.index as int, result.index as int),
            r,
            set![left.index as int, right.index as int, result.index as int],
        );
    }
    r
}

/// When two of the three variables are fixed, fixes the third: `left = sum - right`,
/// `right = sum - left`, `result = left + right`, in this order; keeps every solution of
/// `left + right == result`. Returns whether a domain changed.
pub fn propagate_from_result(store: &mut DomainStore, left: VariableId, right: VariableId, result: VariableId) -> (r: bool)
    requires
        left.index < old(store)@.len(),
        right.index < old(store)@.len(),
        result.index < old(store)@.len(),
        sum_bounds_fit(
            old(store)@[left.index as int],
            old(store)@[right.index as int],
            old(store)@[result.index as int],
        ),
    ensures
        narrows(old(store)@, final(store)@),
        keeps(old(store)@, final(store)@, sum_holds(left.index as int, right.index as int, result.index as int)),
        r == (final(store)@ != old(store)@),
        final(store)@ == from_result_outcome(old(store)@, left.index as int, right.index as int, result.index as int),
{
    let ghost s0 = store@;
    let ghost cons = sum_holds(left.index as int, right.index as int, result.index as int);
    let ghost w = set![left.index as int, right.index as int, result.index as int];
    store.assert_in_range();
    proof {
        lemma_progress_start(s0, cons, w);
    }
    let r = from_result_step(store, left, right, result, Ghost(s0), false);
    proof {
        lemma_progress_facts(s0, store@, cons, r, w);
    }
    r
}

/// A fixed value of a narrowed domain lies within the original domain's bounds.
proof fn lemma_fixed_in(s0: Seq<Set<int>>, s: Seq<Set<int>>, x: int, v: int)
    requires
        narrows(s0, s),
        0 <= x < s0.len(),
        s[x] == set![v],
        s0[x].finite(),
    ensures
        least(s0[x]) <= v <= greatest(s0[x]),
        !s0[x].is_empty(),
{
    assert(s[x].contains(v));
    assert(s0[x].contains(v));
    crate::domain::lemma_least_exists(s0[x]);
    crate::domain::lemma_greatest_exists(s0[x]);
}

impl LinearEqPropagator {
    /// Creates a propagator for `left + right == result`.
    pub fn new(left: VariableId, right: VariableId, result: VariableId) -> (p: Self)
        ensures
            p.left == left,
            p.right == right,
            p.result == result,
    {
        LinearEqPropagator { left, right, result }
    }

    /// The variables whose domains this propagator reads.
    pub fn watched_variables(&self) -> (w: Vec<VariableId>)
        ensures
            w@ == seq![self.left, self.right, self.result],
    {
        let w = vec![self.left, self.right, self.result];
        proof {
            assert(w@ =~= seq![self.left, self.right, self.result]);
        }
        w
    }

    /// Cuts the sum to the sum of the summands' bounds and each summand to the sum's
    /// bounds minus the other's ([`sum_bounds_outcome`]); then a fixed pair fixes the
    /// third variable ([`from_result_outcome`]), failing when a domain is left empty
    /// ([`sum_cuts_hold`] states the cuts over the input). No solution of
    /// `left + right == result` is lost, and it fails only when there is none.
    pub fn propagate(&mut self, store: &mut DomainStore) -> (status: PropagationStatus)
        requires
            old(self).left.index < old(store)@.len(),
            old(self).right.index < old(store)@.len(),
            old(self).result.index < old(store)@.len(),
            sum_bounds_fit(
                old(store)@[old(self).left.index as int],
                old(store)@[old(self).right.index as int],
                old(store)@[old(self).result.index as int],
            ),
        ensures
            *final(self) == *old(self),
            narrows(old(store)@, final(store)@),
            forall|k: int|
                0 <= k < old(store)@.len() && k != old(self).left.index && k != old(self).right.index && k
                    != old(self).result.index ==> #[trigger] final(store)@[k] == old(store)@[k],
            keeps(
                old(store)@,
                final(store)@,
                sum_holds(old(self).left.index as int, old(self).right.index as int, old(self).result.index as int),
            ),
            status == PropagationStatus::Failure ==> !has_solution(
                old(store)@,
                sum_holds(old(self).left.index as int, old(self).right.index as int, old(self).result.index as int),
            ),
            status != PropagationStatus::Failure ==> {
                let l0 = old(store)@[old(self).left.index as int];
                let r0 = old(store)@[old(self).right.index as int];
                let s1 = final(store)@[old(self).result.index as int];
                &&& !final(store)@[old(self).left.index as int].is_empty()
                &&& !final(store)@[old(self).right.index as int].is_empty()
                &&& !s1.is_empty()
                &&& (status == PropagationStatus::OkChanged) == (final(store)@ != old(store)@)
                &&& within(s1, least(l0) + least(r0), greatest(l0) + greatest(r0))
            },
            keeps_on(old(store)@, final(store)@, sum_holds(old(self).left.index as int, old(self).right.index as int, old(self).result.index as int), set![old(self).left.index as int, old(self).right.index as int, old(self).result.index as int]),
            status == PropagationStatus::Failure ==> !has_solution_on(old(store)@, sum_holds(old(self).left.index as int, old(self).right.index as int, old(self).result.index as int), set![old(self).left.index as int, old(self).right.index as int, old(self).result.index as int]),
            final(store)@ == from_result_outcome(sum_bounds_outcome(old(store)@, old(self).left.index as int, old(self).right.index as int, old(self).result.index as int), old(self).left.index as int, old(self).right.index as int, old(self).result.index as int),
            (status == PropagationStatus::Failure) == (final(store)@[old(self).left.index as int].is_empty() || final(store)@[old(self).right.index as int].is_empty()
                || final(store)@[old(self).result.index as int].is_empty()),
            status != PropagationStatus::Failure && old(self).left.index != old(self).right.index && old(self).left.index
                != old(self).result.index && old(self).right.index != old(self).result.index ==> sum_cuts_hold(
                old(store)@,
                final(store)@,
                old(self).left.index as int,
                old(self).right.index as int,
                old(self).result.index as int,
            ),
    {
        self.propagate_whole(store)
    }

    /// [`LinearEqPropagator::propagate`] stated over assignments of the whole store.
    fn propagate_whole(&mut self, store: &mut DomainStore) -> (status: PropagationStatus)
        requires
            old(self).left.index < old(store)@.len(),
            old(self).right.index < old(store)@.len(),
            old(self).result.index < old(store)@.len(),
            sum_bounds_fit(
                old(store)@[old(self).left.index as int],
                old(store)@[old(self).right.index as int],
                old(store)@[old(self).result.index as int],
            ),
        ensures
            *final(self) == *old(self),
            narrows(old(store)@, final(store)@),
            forall|k: int|
                0 <= k < old(store)@.len() && k != old(self).left.index && k != old(self).right.index && k
                    != old(self).result.index ==> #[trigger] final(store)@[k] == old(store)@[k],
            keeps(
                old(store)@,
                final(store)@,
                sum_holds(old(self).left.index as int, old(self).right.index as int, old(self).result.index as int),
            ),
            status == PropagationStatus::Failure ==> !has_solution(
                old(store)@,
                sum_holds(old(self).left.index as int, old(self).right.index as int, old(self).result.index as int),
            ),
            keeps_on(old(store)@, final(store)@, sum_holds(old(self).left.index as int, old(self).right.index as int, old(self).result.index as int), set![old(self).left.index as int, old(self).right.index as int, old(self).result.index as int]),
            status == PropagationStatus::Failure ==> !has_solution_on(old(store)@, sum_holds(old(self).left.index as int, old(self).right.index as int, old(self).result.index as int), set![old(self).left.index as int, old(self).right.index as int, old(self).result.index as int]),
            status != PropagationStatus::Failure ==> {
                let l0 = old(store)@[old(self).left.index as int];
                let r0 = old(store)@[old(self).right.index as int];
                let s1 = final(store)@[old(self).result.index as int];
                &&& !final(store)@[old(self).left.index as int].is_empty()
                &&& !final(store)@[old(self).right.index as int].is_empty()
                &&& !s1.is_empty()
                &&& (status == PropagationStatus::OkChanged) == (final(store)@ != old(store)@)
                &&& within(s1, least(l0) + least(r0), greatest(l0) + greatest(r0))
            },
            final(store)@ == from_result_outcome(sum_bounds_outcome(old(store)@, old(self).left.index as int, old(self).right.index as int, old(self).result.index as int), old(self).left.index as int, old(self).right.index as int, old(self).result.index as int),
            (status == PropagationStatus::Failure) == (final(store)@[old(self).left.index as int].is_empty() || final(store)@[old(self).right.index as int].is_empty()
                || final(store)@[old(self).result.index as int].is_empty()),
            status != PropagationStatus::Failure && old(self).left.index != old(self).right.index && old(self).left.index
                != old(self).result.index && old(self).right.index != old(self).result.index ==> sum_cuts_hold(
                old(store)@,
                final(store)@,
                old(self).left.index as int,
                old(self).right.index as int,
                old(self).result.index as int,
            ),
    {
        let left = self.left;
        let right = self.right;
        let result = self.result;
        let ghost li = left.index as int;
        let ghost ri = right.index as int;
        let ghost si = result.index as int;
        let ghost cons = sum_holds(li, ri, si);
        let ghost w = set![li, ri, si];
        let ghost s0 = store@;
        store.assert_in_range();
        proof {
            lemma_progress_start(s0, cons, w);
            assert(w.contains(li) && w.contains(ri) && w.contains(si));
            assert(narrows(s0, s0));
        }
        let changed = sum_bounds_step(store, left, right, result);
        let ghost s1 = store@;
        let ghost first_cut = !s0[li].is_empty() && !s0[ri].is_empty();
        proof {
            lemma_progress_narrows(s0, s1, cons, changed, w);
        }
        let changed = from_result_step(store, left, right, result, Ghost(s0), changed);
        proof {
            if li != ri && li != si && ri != si && !store@[li].is_empty() && !store@[ri].is_empty() && !store@[si].is_empty() {
                lemma_sum_cuts(s0, li, ri, si);
            }
            lemma_progress_facts(s0, store@, cons, changed, w);
            if first_cut {
                crate::int_abs::lemma_within_subset(
                    store@[si],
                    s1[si],
                    least(s0[li]) + least(s0[ri]),
                    greatest(s0[li]) + greatest(s0[ri]),
                );
            }
        }
        if store.is_empty(left) || store.is_empty(right) || store.is_empty(result) {
            proof {
                if store@[li].is_empty() {
                    lemma_progress_empty(s0, store@, cons, changed, w, li);
                } else if store@[ri].is_empty() {
                    lemma_progress_empty(s0, store@, cons, changed, w, ri);
                } else {
                    lemma_progress_empty(s0, store@, cons, changed, w, si);
                }
            }
            PropagationStatus::Failure
        } else if changed {
            PropagationStatus::OkChanged
        } else {
            PropagationStatus::OkNoChange
        }
    }
}

} // verus!
