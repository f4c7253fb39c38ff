//! Reified comparisons: a 0/1 variable `reif` stands for the truth of a relation
//! between `left` and `right`.
use vstd::prelude::*;

use crate::domain::{
    at_least, at_most, between, greatest, in_i32_range, lemma_narrow_step, least, narrows, DomainStore,
    PropagationStatus, VariableId,
};
use crate::equality::{equality_result, propagate_equal};
use crate::less_than::is_singleton;
use crate::not_equal_offset::{not_equal_offset_result, single_value};

verus! {

/// `s` with the domain at `t` cut to values of at least `b`.
pub open spec fn lower_cut(s: Seq<Set<int>>, t: int, b: int) -> Seq<Set<int>> {
    s.update(t, at_least(s[t], b))
}

/// `s` with the domain at `t` cut to values of at most `b`.
pub open spec fn upper_cut(s: Seq<Set<int>>, t: int, b: int) -> Seq<Set<int>> {
    s.update(t, at_most(s[t], b))
}

/// One pass for `left <= right` as this library runs it: `right` is cut to at least the
/// largest value of `left`, then `left` to at most the smallest value of `right`.
pub open spec fn le_pass(s: Seq<Set<int>>, l: int, r: int) -> Seq<Set<int>> {
    let s1 = if s[l].is_empty() { s } else { lower_cut(s, r, greatest(s[l])) };
    if s1[r].is_empty() { s1 } else { upper_cut(s1, l, least(s1[r])) }
}

/// One pass for `left > right`: `right` is cut below the smallest value of `left`, then
/// `left` above the largest value of `right`.
pub open spec fn gt_pass(s: Seq<Set<int>>, l: int, r: int) -> Seq<Set<int>> {
    let s1 = if s[l].is_empty() { s } else { upper_cut(s, r, least(s[l]) - 1) };
    if s1[r].is_empty() { s1 } else { lower_cut(s1, l, greatest(s1[r]) + 1) }
}

/// One pass for `left < right`: `left` is cut below the largest value of `right`, then
/// `right` above the smallest value of `left`.
pub open spec fn lt_pass(s: Seq<Set<int>>, l: int, r: int) -> Seq<Set<int>> {
    let s1 = if s[r].is_empty() { s } else { upper_cut(s, l, greatest(s[r]) - 1) };
    if s1[l].is_empty() { s1 } else { lower_cut(s1, r, least(s1[l]) + 1) }
}

/// One pass for `left >= right`: `left` is cut to at least the smallest value of
/// `right`, then `right` to at most the largest value of `left`.
pub open spec fn ge_pass(s: Seq<Set<int>>, l: int, r: int) -> Seq<Set<int>> {
    let s1 = if s[r].is_empty() { s } else { lower_cut(s, l, least(s[r])) };
    if s1[l].is_empty() { s1 } else { upper_cut(s1, r, greatest(s1[l])) }
}

/// `s` with the domain at `t` cut to the single value `v`.
pub open spec fn pin(s: Seq<Set<int>>, t: int, v: int) -> Seq<Set<int>> {
    s.update(t, between(s[t], v, v))
}

/// Both domains are non-empty and their bounds do not overlap.
pub open spec fn bounds_disjoint(x: Set<int>, y: Set<int>) -> bool {
    !x.is_empty() && !y.is_empty() && (greatest(x) < least(y) || greatest(y) < least(x))
}

/// Every value of `x` is at most every value of `y` (`lt`: below).
pub open spec fn bounds_always(x: Set<int>, y: Set<int>, strict: bool) -> bool {
    !x.is_empty() && !y.is_empty() && if strict { greatest(x) < least(y) } else { greatest(x) <= least(y) }
}

/// No value of `x` is at most a value of `y` (`lt`: below).
pub open spec fn bounds_never(x: Set<int>, y: Set<int>, strict: bool) -> bool {
    !x.is_empty() && !y.is_empty() && if strict { least(x) >= greatest(y) } else { least(x) > greatest(y) }
}

/// Status after a pass from `s` to `t` over the variables at `l`, `r` and `b`.
pub open spec fn triple_status(s: Seq<Set<int>>, t: Seq<Set<int>>, l: int, r: int, b: int) -> PropagationStatus {
    if t[l].is_empty() || t[r].is_empty() || t[b].is_empty() {
        PropagationStatus::Failure
    } else if t != s {
        PropagationStatus::OkChanged
    } else {
        PropagationStatus::OkNoChange
    }
}

/// Cuts `t` to values of at least `bound`, which may lie outside `i32`.
fn lower_cut_exec(store: &mut DomainStore, t: VariableId, bound: i64) -> (changed: bool)
    requires
        t.index < old(store)@.len(),
    ensures
        final(store)@ == lower_cut(old(store)@, t.index as int, bound as int),
        changed == (final(store)@ != old(store)@),
        narrows(old(store)@, final(store)@),
{
    store.assert_in_range();
    let ghost s = store@;
    let ghost ti = t.index as int;
    if bound > i32::MAX as i64 {
        let changed = store.restrict(t, 1, 0);
        proof {
            assert(in_i32_range(s[ti]));
            assert(between(s[ti], 1, 0) =~= at_least(s[ti], bound as int));
        }
        changed
    } else if bound < i32::MIN as i64 {
        proof {
            assert(in_i32_range(s[ti]));
            assert(at_least(s[ti], bound as int) =~= s[ti]);
            assert(lower_cut(s, ti, bound as int) =~= s);
            assert(narrows(s, s));
        }
        false
    } else {
        store.remove_below(t, bound as i32)
    }
}

/// Cuts `t` to values of at most `bound`, which may lie outside `i32`.
fn upper_cut_exec(store: &mut DomainStore, t: VariableId, bound: i64) -> (changed: bool)
    requires
        t.index < old(store)@.len(),
    ensures
        final(store)@ == upper_cut(old(store)@, t.index as int, bound as int),
        changed == (final(store)@ != old(store)@),
        narrows(old(store)@, final(store)@),
{
    store.assert_in_range();
    let ghost s = store@;
    let ghost ti = t.index as int;
    if bound < i32::MIN as i64 {
        let changed = store.restrict(t, 1, 0);
        proof {
            assert(in_i32_range(s[ti]));
            assert(between(s[ti], 1, 0) =~= at_most(s[ti], bound as int));
        }
        changed
    } else if bound > i32::MAX as i64 {
        proof {
            assert(in_i32_range(s[ti]));
            assert(at_most(s[ti], bound as int) =~= s[ti]);
            assert(upper_cut(s, ti, bound as int) =~= s);
            assert(narrows(s, s));
        }
        false
    } else {
        store.remove_above(t, bound as i32)
    }
}

/// Which pass a reified propagator runs on each side.
#[derive(Clone, Copy, Debug, PartialEq, Eq, Structural)]
pub enum Pass {
    /// [`le_pass`].
    LessEqual,
    /// [`gt_pass`].
    GreaterThan,
    /// [`lt_pass`].
    LessThan,
    /// [`ge_pass`].
    GreaterEqual,
}

/// The pass as a function of the store.
pub open spec fn pass_result(pass: Pass, s: Seq<Set<int>>, l: int, r: int) -> Seq<Set<int>> {
    match pass {
        Pass::LessEqual => le_pass(s, l, r),
        Pass::GreaterThan => gt_pass(s, l, r),
        Pass::LessThan => lt_pass(s, l, r),
        Pass::GreaterEqual => ge_pass(s, l, r),
    }
}

/// Runs one ordering pass on `left` and `right`; returns whether a domain was narrowed.
fn run_pass(store: &mut DomainStore, pass: Pass, left: VariableId, right: VariableId) -> (changed: bool)
    requires
        left.index < old(store)@.len(),
        right.index < old(store)@.len(),
    ensures
        final(store)@ == pass_result(pass, old(store)@, left.index as int, right.index as int),
        changed == (final(store)@ != old(store)@),
        narrows(old(store)@, final(store)@),
{
    let ghost s0 = store@;
    let ghost li = left.index as int;
    let ghost ri = right.index as int;
    proof {
        assert(narrows(s0, s0));
    }
    // First cut: from the source side to the other side.
    let (src, tgt) = match pass {
        Pass::LessEqual | Pass::GreaterThan => (left, right),
        Pass::LessThan | Pass::GreaterEqual => (right, left),
    };
    let c1 = match pass {
        Pass::LessEqual => match store.max(src) {
            Some(m) => {
                proof { crate::domain::lemma_greatest_is(s0[li], m as int); }
                lower_cut_exec(store, tgt, m as i64)
            },
            None => false,
        },
        Pass::GreaterThan => match store.min(src) {
            Some(m) => {
                proof { crate::domain::lemma_least_is(s0[li], m as int); }
                upper_cut_exec(store, tgt, m as i64 - 1)
            },
            None => false,
        },
        Pass::LessThan => match store.max(src) {
            Some(m) => {
                proof { crate::domain::lemma_greatest_is(s0[ri], m as int); }
                upper_cut_exec(store, tgt, m as i64 - 1)
            },
            None => false,
        },
        Pass::GreaterEqual => match store.min(src) {
            Some(m) => {
                proof { crate::domain::lemma_least_is(s0[ri], m as int); }
                lower_cut_exec(store, tgt, m as i64)
            },
            None => false,
        },
    };
    let ghost s1 = store@;
    proof {
        if !c1 {
            assert(narrows(s0, s1));
        }
    }
    let c2 = match pass {
        Pass::LessEqual => match store.min(right) {
            Some(m) => {
                proof { crate::domain::lemma_least_is(s1[ri], m as int); }
                upper_cut_exec(store, left, m as i64)
            },
            None => false,
        },
        Pass::GreaterThan => match store.max(right) {
            Some(m) => {
                proof { crate::domain::lemma_greatest_is(s1[ri], m as int); }
                lower_cut_exec(store, left, m as i64 + 1)
            },
            None => false,
        },
        Pass::LessThan => match store.min(left) {
            Some(m) => {
                proof { crate::domain::lemma_least_is(s1[li], m as int); }
                lower_cut_exec(store, right, m as i64 + 1)
            },
            None => false,
        },
        Pass::GreaterEqual => match store.max(left) {
            Some(m) => {
                proof { crate::domain::lemma_greatest_is(s1[li], m as int); }
                upper_cut_exec(store, right, m as i64)
            },
            None => false,
        },
    };
    proof {
        if !c2 {
            assert(narrows(s1, store@));
        }
        lemma_narrow_step(s0, s1, store@, c1, c2);
    }
    c1 || c2
}

/// The relation that a reified propagator stands for.
#[derive(Clone, Copy, Debug, PartialEq, Eq, Structural)]
pub enum Relation {
    /// `left == right`.
    Equal,
    /// `left != right`.
    NotEqual,
    /// `left <= right`.
    LessEqual,
    /// `left < right`.
    LessThan,
}

/// What a reified propagator runs on `left` and `right` once `reif` is fixed.
#[derive(Clone, Copy, Debug, PartialEq, Eq, Structural)]
pub enum Step {
    /// [`equality_result`].
    Equal,
    /// [`not_equal_offset_result`] with offset zero.
    NotEqual,
    /// An ordering pass.
    Order(Pass),
}

/// The step as a function of the store.
pub open spec fn step_result(step: Step, s: Seq<Set<int>>, l: int, r: int) -> Seq<Set<int>> {
    match step {
        Step::Equal => equality_result(s, l, r),
        Step::NotEqual => not_equal_offset_result(s, l, r, 0),
        Step::Order(p) => pass_result(p, s, l, r),
    }
}

/// The step run when the relation is known to hold.
pub open spec fn on_true(rel: Relation) -> Step {
    match rel {
        Relation::Equal => Step::Equal,
        Relation::NotEqual => Step::NotEqual,
        Relation::LessEqual => Step::Order(Pass::LessEqual),
        Relation::LessThan => Step::Order(Pass::LessThan),
    }
}

/// The step run when the relation is known to fail.
pub open spec fn on_false(rel: Relation) -> Step {
    match rel {
        Relation::Equal => Step::NotEqual,
        Relation::NotEqual => Step::Equal,
        Relation::LessEqual => Step::Order(Pass::GreaterThan),
        Relation::LessThan => Step::Order(Pass::GreaterEqual),
    }
}

/// The relation on two values.
pub open spec fn relation_holds(rel: Relation, x: int, y: int) -> bool {
    match rel {
        Relation::Equal => x == y,
        Relation::NotEqual => x != y,
        Relation::LessEqual => x <= y,
        Relation::LessThan => x < y,
    }
}

/// The value that `reif` is pinned to after the step, if any: the relation's truth on
/// fixed operands, else what the operands' bounds decide.
pub open spec fn reif_verdict(rel: Relation, s: Seq<Set<int>>, l: int, r: int) -> Option<int> {
    if is_singleton(s[l]) && is_singleton(s[r]) {
        Some(if relation_holds(rel, single_value(s[l]), single_value(s[r])) { 1int } else { 0int })
    } else {
        match rel {
            Relation::Equal => if bounds_disjoint(s[l], s[r]) { Some(0int) } else { None },
            Relation::NotEqual => None,
            Relation::LessEqual => if bounds_always(s[l], s[r], false) {
                Some(1int)
            } else if bounds_never(s[l], s[r], false) {
                Some(0int)
            } else {
                None
            },
            Relation::LessThan => if bounds_always(s[l], s[r], true) {
                Some(1int)
            } else if bounds_never(s[l], s[r], true) {
                Some(0int)
            } else {
                None
            },
        }
    }
}

/// Store after one pass of a reified propagator: the step chosen by a fixed `reif`,
/// then the verdict pinned on `reif`.
pub open spec fn reified_result(rel: Relation, s: Seq<Set<int>>, l: int, r: int, b: int) -> Seq<Set<int>> {
    let s1 = if s[b] == set![1int] {
        step_result(on_true(rel), s, l, r)
    } else if s[b] == set![0int] {
        step_result(on_false(rel), s, l, r)
    } else {
        s
    };
    match reif_verdict(rel, s1, l, r) {
        Some(v) => pin(s1, b, v),
        None => s1,
    }
}

/// `x`, `y` and `bv` are values of the domains at `l`, `r` and `b` of `s`.
pub open spec fn triple_in(s: Seq<Set<int>>, l: int, r: int, b: int, x: int, y: int, bv: int) -> bool {
    s[l].contains(x) && s[r].contains(y) && s[b].contains(bv)
}

/// `bv` is 1 when the relation holds on `x` and `y`, and 0 when it does not.
pub open spec fn reif_holds(rel: Relation, x: int, y: int, bv: int) -> bool {
    (bv == 1 && relation_holds(rel, x, y)) || (bv == 0 && !relation_holds(rel, x, y))
}

/// The domains at `l` and `r` of `s` are finite.
pub open spec fn pair_finite(s: Seq<Set<int>>, l: int, r: int) -> bool {
    s[l].finite() && s[r].finite()
}

/// One step for a relation that holds (or fails, by `on_false`) on `x` and `y` keeps them.
proof fn lemma_step_keeps(step: Step, s: Seq<Set<int>>, l: int, r: int, x: int, y: int)
    requires
        0 <= l < s.len() && 0 <= r < s.len() && l != r,
        pair_finite(s, l, r),
        s[l].contains(x) && s[r].contains(y),
        step == Step::Equal ==> x == y,
        step == Step::NotEqual ==> x != y,
        step == Step::Order(Pass::LessThan) ==> x < y,
        step == Step::Order(Pass::GreaterEqual) ==> x >= y,
        step != Step::Order(Pass::LessEqual) && step != Step::Order(Pass::GreaterThan),
    ensures
        step_result(step, s, l, r)[l].contains(x),
        step_result(step, s, l, r)[r].contains(y),
        step_result(step, s, l, r).len() == s.len(),
        forall|k: int| 0 <= k < s.len() && k != l && k != r ==> #[trigger] step_result(step, s, l, r)[k] == s[k],
        pair_finite(step_result(step, s, l, r), l, r),
{
    let t = step_result(step, s, l, r);
    match step {
        Step::Equal => {
            crate::equality::law_equality_keeps_pairs(s, l, r, x);
        },
        Step::NotEqual => {
            crate::not_equal_offset::law_not_equal_offset_keeps_pairs(s, l, r, 0, x, y);
            let s1 = crate::not_equal_offset::exclude_from_fixed(s, r, l, 0);
            vstd::set_lib::lemma_len_subset(s1[l], s[l]);
            let s2 = crate::not_equal_offset::exclude_from_fixed(s1, l, r, 0);
            vstd::set_lib::lemma_len_subset(s2[r], s1[r]);
            assert(t == s2);
        },
        Step::Order(Pass::LessThan) => {
            crate::domain::lemma_member_in_bounds(s[r], y);
            assert(!s[r].is_empty());
            let s1 = upper_cut(s, l, greatest(s[r]) - 1);
            vstd::set_lib::lemma_len_subset(s1[l], s[l]);
            crate::domain::lemma_member_in_bounds(s1[l], x);
            assert(s1[l].contains(x));
            assert(!s1[l].is_empty());
            let s2 = lower_cut(s1, r, least(s1[l]) + 1);
            vstd::set_lib::lemma_len_subset(s2[r], s1[r]);
            assert(lt_pass(s, l, r) == s2);
            assert(t == s2);
        },
        Step::Order(Pass::GreaterEqual) => {
            crate::domain::lemma_member_in_bounds(s[r], y);
            assert(!s[r].is_empty());
            let s1 = lower_cut(s, l, least(s[r]));
            vstd::set_lib::lemma_len_subset(s1[l], s[l]);
            crate::domain::lemma_member_in_bounds(s1[l], x);
            assert(s1[l].contains(x));
            assert(!s1[l].is_empty());
            let s2 = upper_cut(s1, r, greatest(s1[l]));
            vstd::set_lib::lemma_len_subset(s2[r], s1[r]);
            assert(ge_pass(s, l, r) == s2);
            assert(t == s2);
        },
        _ => {},
    }
}

/// For `==`, `!=` and `<`, one pass of a reified propagator keeps every value of the
/// three domains that belongs to a solution of `reif <=> (left rel right)`. (For `<=`
/// the passes cut `right` to at least the largest value of `left` and `left` to at most
/// the smallest value of `right`, which can lose solutions.)
pub proof fn law_reified_keeps_solutions(rel: Relation, s: Seq<Set<int>>, l: int, r: int, b: int, x: int, y: int, bv: int)
    requires
        rel != Relation::LessEqual,
        0 <= l < s.len() && 0 <= r < s.len() && 0 <= b < s.len(),
        l != r && l != b && r != b,
        pair_finite(s, l, r),
        triple_in(s, l, r, b, x, y, bv),
        reif_holds(rel, x, y, bv),
    ensures
        triple_in(reified_result(rel, s, l, r, b), l, r, b, x, y, bv),
{
    let s1 = if s[b] == set![1int] {
        step_result(on_true(rel), s, l, r)
    } else if s[b] == set![0int] {
        step_result(on_false(rel), s, l, r)
    } else {
        s
    };
    if s[b] == set![1int] {
        assert(set![1int].contains(bv));
        lemma_step_keeps(on_true(rel), s, l, r, x, y);
    } else if s[b] == set![0int] {
        assert(set![0int].contains(bv));
        lemma_step_keeps(on_false(rel), s, l, r, x, y);
    }
    assert(triple_in(s1, l, r, b, x, y, bv));
    assert(pair_finite(s1, l, r));
    match reif_verdict(rel, s1, l, r) {
        Some(v) => {
            if is_singleton(s1[l]) && is_singleton(s1[r]) {
                let wl = choose|w: int| s1[l] == set![w];
                let wr = choose|w: int| s1[r] == set![w];
                crate::not_equal_offset::lemma_single_value_of(s1[l], wl);
                crate::not_equal_offset::lemma_single_value_of(s1[r], wr);
                assert(set![wl].contains(x));
                assert(set![wr].contains(y));
            } else {
                crate::domain::lemma_member_in_bounds(s1[l], x);
                crate::domain::lemma_member_in_bounds(s1[r], y);
            }
            assert(v == bv);
        },
        None => {},
    }
}

/// Removes from each side the value of the other side once that one is fixed.
fn not_equal_pass(store: &mut DomainStore, left: VariableId, right: VariableId) -> (changed: bool)
    requires
        left.index < old(store)@.len(),
        right.index < old(store)@.len(),
    ensures
        final(store)@ == not_equal_offset_result(old(store)@, left.index as int, right.index as int, 0),
        changed == (final(store)@ != old(store)@),
        narrows(old(store)@, final(store)@),
{
    let ghost s0 = store@;
    let ghost li = left.index as int;
    let ghost ri = right.index as int;
    proof {
        assert(narrows(s0, s0));
    }
    let c1 = match store.fixed_value(right) {
        Some(w) => {
            proof {
                crate::not_equal_offset::lemma_single_value_of(s0[ri], w as int);
            }
            store.remove_value(left, w)
        },
        None => false,
    };
    let ghost s1 = store@;
    proof {
        if !c1 {
            assert(narrows(s0, s1));
        }
    }
    let c2 = match store.fixed_value(left) {
        Some(v) => {
            proof {
                crate::not_equal_offset::lemma_single_value_of(s1[li], v as int);
            }
            store.remove_value(right, v)
        },
        None => false,
    };
    proof {
        if !c2 {
            assert(narrows(s1, store@));
        }
        lemma_narrow_step(s0, s1, store@, c1, c2);
        assert(store@ =~= not_equal_offset_result(s0, li, ri, 0));
    }
    c1 || c2
}

/// Runs a step; returns whether a domain was narrowed.
fn run_step(store: &mut DomainStore, step: Step, left: VariableId, right: VariableId) -> (changed: bool)
    requires
        left.index < old(store)@.len(),
        right.index < old(store)@.len(),
    ensures
        final(store)@ == step_result(step, old(store)@, left.index as int, right.index as int),
        changed == (final(store)@ != old(store)@),
        narrows(old(store)@, final(store)@),
{
    match step {
        Step::Equal => propagate_equal(store, left, right),
        Step::NotEqual => not_equal_pass(store, left, right),
        Step::Order(p) => run_pass(store, p, left, right),
    }
}

/// The verdict on `reif` from the current domains of `left` and `right`.
fn verdict(store: &DomainStore, rel: Relation, left: VariableId, right: VariableId) -> (r: Option<i32>)
    requires
        left.index < store@.len(),
        right.index < store@.len(),
    ensures
        match reif_verdict(rel, store@, left.index as int, right.index as int) {
            Some(v) => r == Some(v as i32),
            None => r is None,
        },
{
    let ghost s = store@;
    let ghost li = left.index as int;
    let ghost ri = right.index as int;
    match (store.fixed_value(left), store.fixed_value(right)) {
        (Some(x), Some(y)) => {
            proof {
                crate::not_equal_offset::lemma_single_value_of(s[li], x as int);
                crate::not_equal_offset::lemma_single_value_of(s[ri], y as int);
            }
            let holds = match rel {
                Relation::Equal => x == y,
                Relation::NotEqual => x != y,
                Relation::LessEqual => x <= y,
                Relation::LessThan => x < y,
            };
            if holds { Some(1) } else { Some(0) }
        },
        (fx, fy) => {
            proof {
                assert(!(is_singleton(s[li]) && is_singleton(s[ri]))) by {
                    if is_singleton(s[li]) && is_singleton(s[ri]) {
                        let a = choose|a: int| s[li] == set![a];
                        let b = choose|b: int| s[ri] == set![b];
                        assert(fx is None || fy is None);
                    }
                }
            }
            match (store.min(left), store.max(left), store.min(right), store.max(right)) {
                (Some(lmin), Some(lmax), Some(rmin), Some(rmax)) => {
                    proof {
                        crate::domain::lemma_least_is(s[li], lmin as int);
                        crate::domain::lemma_greatest_is(s[li], lmax as int);
                        crate::domain::lemma_least_is(s[ri], rmin as int);
                        crate::domain::lemma_greatest_is(s[ri], rmax as int);
                    }
                    match rel {
                        Relation::Equal => if lmax < rmin || rmax < lmin { Some(0) } else { None },
                        Relation::NotEqual => None,
                        Relation::LessEqual => if lmax <= rmin {
                            Some(1)
                        } else if lmin > rmax {
                            Some(0)
                        } else {
                            None
                        },
                        Relation::LessThan => if lmax < rmin {
                            Some(1)
                        } else if lmin >= rmax {
                            Some(0)
                        } else {
                            None
                        },
                    }
                },
                _ => None,
            }
        },
    }
}

/// One pass of the reified relation `reif == 1 <=> left REL right`.
fn propagate_reified(
    store: &mut DomainStore,
    rel: Relation,
    left: VariableId,
    right: VariableId,
    reif: VariableId,
) -> (status: PropagationStatus)
    requires
        left.index < old(store)@.len(),
        right.index < old(store)@.len(),
        reif.index < old(store)@.len(),
    ensures
        final(store)@ == reified_result(rel, old(store)@, left.index as int, right.index as int, reif.index as int),
        status == triple_status(old(store)@, final(store)@, left.index as int, right.index as int, reif.index as int),
{
    let ghost s0 = store@;
    proof {
        assert(narrows(s0, s0));
    }
    let fixed = store.fixed_value(reif);
    let c1 = match fixed {
        Some(1) => run_step(store, on_true_exec(rel), left, right),
        Some(0) => run_step(store, on_false_exec(rel), left, right),
        _ => false,
    };
    let ghost s1 = store@;
    proof {
        let bi = reif.index as int;
        match fixed {
            Some(v) => {
                if v != 1 {
                    assert(!set![1int].contains(v as int));
                    assert(s0[bi] != set![1int]);
                }
                if v != 0 {
                    assert(!set![0int].contains(v as int));
                    assert(s0[bi] != set![0int]);
                }
            },
            None => {
                assert(s0[bi] != set![1int]);
                assert(s0[bi] != set![0int]);
            },
        }
        if !c1 {
            assert(narrows(s0, s1));
        }
    }
    let c2 = match verdict(store, rel, left, right) {
        Some(v) => store.restrict(reif, v, v),
        None => false,
    };
    proof {
        if !c2 {
            assert(narrows(s1, store@));
        }
        lemma_narrow_step(s0, s1, store@, c1, c2);
    }
    if store.is_empty(left) || store.is_empty(right) || store.is_empty(reif) {
        PropagationStatus::Failure
    } else if c1 || c2 {
        PropagationStatus::OkChanged
    } else {
        PropagationStatus::OkNoChange
    }
}

fn on_true_exec(rel: Relation) -> (step: Step)
    ensures
        step == on_true(rel),
{
    match rel {
        Relation::Equal => Step::Equal,
        Relation::NotEqual => Step::NotEqual,
        Relation::LessEqual => Step::Order(Pass::LessEqual),
        Relation::LessThan => Step::Order(Pass::LessThan),
    }
}

fn on_false_exec(rel: Relation) -> (step: Step)
    ensures
        step == on_false(rel),
{
    match rel {
        Relation::Equal => Step::NotEqual,
        Relation::NotEqual => Step::Equal,
        Relation::LessEqual => Step::Order(Pass::GreaterThan),
        Relation::LessThan => Step::Order(Pass::GreaterEqual),
    }
}

/// Propagates `reif == 1 <=> left == right`.
pub struct ReifiedEqualityPropagator {
    /// Left operand.
    pub left: VariableId,
    /// Right operand.
    pub right: VariableId,
    /// The 0/1 truth of the relation.
    pub reif: VariableId,
}

impl ReifiedEqualityPropagator {
    /// Creates a reified equality propagator.
    pub fn new(left: VariableId, right: VariableId, reif: VariableId) -> (p: Self)
        ensures
            p.left == left,
            p.right == right,
            p.reif == reif,
    {
        ReifiedEqualityPropagator { left, right, reif }
    }

    /// The variables whose domains this propagator reads.
    pub fn watched_variables(&self) -> (w: Vec<VariableId>)
        ensures
            w@ == seq![self.left, self.right, self.reif],
    {
        let w = vec![self.left, self.right, self.reif];
        proof {
            assert(w@ =~= seq![self.left, self.right, self.reif]);
        }
        w
    }

    /// Scheduling priority of this propagator.
    pub fn priority(&self) -> (p: u32)
        ensures
            p == 12,
    {
        12
    }

    /// With `reif` fixed, enforces the relation or its negation on the operands; then
    /// fixes `reif` when the operands decide the relation.
    pub fn propagate(&mut self, store: &mut DomainStore) -> (status: PropagationStatus)
        requires
            old(self).left.index < old(store)@.len(),
            old(self).right.index < old(store)@.len(),
            old(self).reif.index < old(store)@.len(),
        ensures
            *final(self) == *old(self),
            final(store)@ == reified_result(
                Relation::Equal,
                old(store)@,
                old(self).left.index as int,
                old(self).right.index as int,
                old(self).reif.index as int,
            ),
            status == triple_status(
                old(store)@,
                final(store)@,
                old(self).left.index as int,
                old(self).right.index as int,
                old(self).reif.index as int,
            ),
    {
        propagate_reified(store, Relation::Equal, self.left, self.right, self.reif)
    }
}

/// Propagates `reif == 1 <=> left != right`.
pub struct ReifiedNotEqualPropagator {
    /// Left operand.
    pub left: VariableId,
    /// Right operand.
    pub right: VariableId,
    /// The 0/1 truth of the relation.
    pub reif: VariableId,
}

impl ReifiedNotEqualPropagator {
    /// Creates a reified disequality propagator.
    pub fn new(left: VariableId, right: VariableId, reif: VariableId) -> (p: Self)
        ensures
            p.left == left,
            p.right == right,
            p.reif == reif,
    {
        ReifiedNotEqualPropagator { left, right, reif }
    }

    /// The variables whose domains this propagator reads.
    pub fn watched_variables(&self) -> (w: Vec<VariableId>)
        ensures
            w@ == seq![self.left, self.right, self.reif],
    {
        let w = vec![self.left, self.right, self.reif];
        proof {
            assert(w@ =~= seq![self.left, self.right, self.reif]);
        }
        w
    }

    /// Scheduling priority of this propagator.
    pub fn priority(&self) -> (p: u32)
        ensures
            p == 12,
    {
        12
    }

    /// With `reif` fixed, enforces the relation or its negation on the operands; then
    /// fixes `reif` when the operands decide the relation.
    pub fn propagate(&mut self, store: &mut DomainStore) -> (status: PropagationStatus)
        requires
            old(self).left.index < old(store)@.len(),
            old(self).right.index < old(store)@.len(),
            old(self).reif.index < old(store)@.len(),
        ensures
            *final(self) == *old(self),
            final(store)@ == reified_result(
                Relation::NotEqual,
                old(store)@,
                old(self).left.index as int,
                old(self).right.index as int,
                old(self).reif.index as int,
            ),
            status == triple_status(
                old(store)@,
                final(store)@,
                old(self).left.index as int,
                old(self).right.index as int,
                old(self).reif.index as int,
            ),
    {
        propagate_reified(store, Relation::NotEqual, self.left, self.right, self.reif)
    }
}

/// Propagates `reif == 1 <=> left <= right`.
pub struct ReifiedLessEqualPropagator {
    /// Left operand.
    pub left: VariableId,
    /// Right operand.
    pub right: VariableId,
    /// The 0/1 truth of the relation.
    pub reif: VariableId,
}

impl ReifiedLessEqualPropagator {
    /// Creates a reified `<=` propagator.
    pub fn new(left: VariableId, right: VariableId, reif: VariableId) -> (p: Self)
        ensures
            p.left == left,
            p.right == right,
            p.reif == reif,
    {
        ReifiedLessEqualPropagator { left, right, reif }
    }

    /// The variables whose domains this propagator reads.
    pub fn watched_variables(&self) -> (w: Vec<VariableId>)
        ensures
            w@ == seq![self.left, self.right, self.reif],
    {
        let w = vec![self.left, self.right, self.reif];
        proof {
            assert(w@ =~= seq![self.left, self.right, self.reif]);
        }
        w
    }

    /// Scheduling priority of this propagator.
    pub fn priority(&self) -> (p: u32)
        ensures
            p == 12,
    {
        12
    }

    /// With `reif` fixed, enforces the relation or its negation on the operands; then
    /// fixes `reif` when the operands decide the relation.
    pub fn propagate(&mut self, store: &mut DomainStore) -> (status: PropagationStatus)
        requires
            old(self).left.index < old(store)@.len(),
            old(self).right.index < old(store)@.len(),
            old(self).reif.index < old(store)@.len(),
        ensures
            *final(self) == *old(self),
            final(store)@ == reified_result(
                Relation::LessEqual,
                old(store)@,
                old(self).left.index as int,
                old(self).right.index as int,
                old(self).reif.index as int,
            ),
            status == triple_status(
                old(store)@,
                final(store)@,
                old(self).left.index as int,
                old(self).right.index as int,
                old(self).reif.index as int,
            ),
    {
        propagate_reified(store, Relation::LessEqual, self.left, self.right, self.reif)
    }
}

/// Propagates `reif == 1 <=> left < right`.
pub struct ReifiedLessThanPropagator {
    /// Left operand.
    pub left: VariableId,
    /// Right operand.
    pub right: VariableId,
    /// The 0/1 truth of the relation.
    pub reif: VariableId,
}

impl ReifiedLessThanPropagator {
    /// Creates a reified `<` propagator.
    pub fn new(left: VariableId, right: VariableId, reif: VariableId) -> (p: Self)
        ensures
            p.left == left,
            p.right == right,
            p.reif == reif,
    {
        ReifiedLessThanPropagator { left, right, reif }
    }

    /// The variables whose domains this propagator reads.
    pub fn watched_variables(&self) -> (w: Vec<VariableId>)
        ensures
            w@ == seq![self.left, self.right, self.reif],
    {
        let w = vec![self.left, self.right, self.reif];
        proof {
            assert(w@ =~= seq![self.left, self.right, self.reif]);
        }
        w
    }

    /// Scheduling priority of this propagator.
    pub fn priority(&self) -> (p: u32)
        ensures
            p == 12,
    {
        12
    }

    /// With `reif` fixed, enforces the relation or its negation on the operands; then
    /// fixes `reif` when the operands decide the relation.
    pub fn propagate(&mut self, store: &mut DomainStore) -> (status: PropagationStatus)
        requires
            old(self).left.index < old(store)@.len(),
            old(self).right.index < old(store)@.len(),
            old(self).reif.index < old(store)@.len(),
        ensures
            *final(self) == *old(self),
            final(store)@ == reified_result(
                Relation::LessThan,
                old(store)@,
                old(self).left.index as int,
                old(self).right.index as int,
                old(self).reif.index as int,
            ),
            status == triple_status(
                old(store)@,
                final(store)@,
                old(self).left.index as int,
                old(self).right.index as int,
                old(self).reif.index as int,
            ),
    {
        propagate_reified(store, Relation::LessThan, self.left, self.right, self.reif)
    }
}


/// One [`le_pass`] on `left` and `right`; returns whether a domain was narrowed.
pub fn propagate_less_equal(store: &mut DomainStore, left: VariableId, right: VariableId) -> (changed: bool)
    requires
        left.index < old(store)@.len(),
        right.index < old(store)@.len(),
    ensures
        final(store)@ == le_pass(old(store)@, left.index as int, right.index as int),
        changed == (final(store)@ != old(store)@),
{
    run_pass(store, Pass::LessEqual, left, right)
}

/// One [`gt_pass`] on `left` and `right`; returns whether a domain was narrowed.
pub fn propagate_greater_than(store: &mut DomainStore, left: VariableId, right: VariableId) -> (changed: bool)
    requires
        left.index < old(store)@.len(),
        right.index < old(store)@.len(),
    ensures
        final(store)@ == gt_pass(old(store)@, left.index as int, right.index as int),
        changed == (final(store)@ != old(store)@),
{
    run_pass(store, Pass::GreaterThan, left, right)
}

/// One [`lt_pass`] on `left` and `right`; returns whether a domain was narrowed.
pub fn propagate_less_than(store: &mut DomainStore, left: VariableId, right: VariableId) -> (changed: bool)
    requires
        left.index < old(store)@.len(),
        right.index < old(store)@.len(),
    ensures
        final(store)@ == lt_pass(old(store)@, left.index as int, right.index as int),
        changed == (final(store)@ != old(store)@),
{
    run_pass(store, Pass::LessThan, left, right)
}

/// One [`ge_pass`] on `left` and `right`; returns whether a domain was narrowed.
pub fn propagate_greater_equal(store: &mut DomainStore, left: VariableId, right: VariableId) -> (changed: bool)
    requires
        left.index < old(store)@.len(),
        right.index < old(store)@.len(),
    ensures
        final(store)@ == ge_pass(old(store)@, left.index as int, right.index as int),
        changed == (final(store)@ != old(store)@),
{
    run_pass(store, Pass::GreaterEqual, left, right)
}

/// Bounds of the two domains, when both are non-empty.
fn both_bounds(store: &DomainStore, left: VariableId, right: VariableId) -> (r: Option<(i32, i32, i32, i32)>)
    requires
        left.index < store@.len(),
        right.index < store@.len(),
    ensures
        r is Some <==> !store@[left.index as int].is_empty() && !store@[right.index as int].is_empty(),
        r matches Some(b) ==> b.0 == least(store@[left.index as int]) && b.1 == greatest(store@[left.index as int])
            && b.2 == least(store@[right.index as int]) && b.3 == greatest(store@[right.index as int]),
{
    match (store.min(left), store.max(left), store.min(right), store.max(right)) {
        (Some(a), Some(b), Some(c), Some(d)) => {
            proof {
                crate::domain::lemma_least_is(store@[left.index as int], a as int);
                crate::domain::lemma_greatest_is(store@[left.index as int], b as int);
                crate::domain::lemma_least_is(store@[right.index as int], c as int);
                crate::domain::lemma_greatest_is(store@[right.index as int], d as int);
            }
            Some((a, b, c, d))
        },
        _ => None,
    }
}

/// Whether the bounds of `left` and `right` do not overlap ([`bounds_disjoint`]).
pub fn domains_disjoint(store: &DomainStore, left: VariableId, right: VariableId) -> (r: bool)
    requires
        left.index < store@.len(),
        right.index < store@.len(),
    ensures
        r == bounds_disjoint(store@[left.index as int], store@[right.index as int]),
{
    match both_bounds(store, left, right) {
        Some((left_min, left_max, right_min, right_max)) => left_max < right_min || right_max < left_min,
        None => false,
    }
}

/// Whether both domains are the same single value.
pub fn domains_equal(store: &DomainStore, left: VariableId, right: VariableId) -> (r: bool)
    requires
        left.index < store@.len(),
        right.index < store@.len(),
    ensures
        r == (is_singleton(store@[left.index as int]) && store@[left.index as int] == store@[right.index as int]),
{
    match (store.fixed_value(left), store.fixed_value(right)) {
        (Some(x), Some(y)) => {
            proof {
                if store@[left.index as int] == store@[right.index as int] {
                    assert(set![x as int].contains(x as int));
                    assert(set![y as int].contains(x as int));
                }
            }
            x == y
        },
        (None, _) => {
            proof {
                if is_singleton(store@[left.index as int]) {
                    let a = choose|a: int| store@[left.index as int] == set![a];
                    assert(store@[left.index as int] == set![a]);
                }
            }
            false
        },
        (Some(x), None) => {
            proof {
                if store@[left.index as int] == store@[right.index as int] {
                    assert(store@[right.index as int] == set![x as int]);
                }
            }
            false
        },
    }
}

/// Whether every value of `left` is at most every value of `right`.
pub fn always_less_equal(store: &DomainStore, left: VariableId, right: VariableId) -> (r: bool)
    requires
        left.index < store@.len(),
        right.index < store@.len(),
    ensures
        r == bounds_always(store@[left.index as int], store@[right.index as int], false),
{
    match both_bounds(store, left, right) {
        Some((_, left_max, right_min, _)) => left_max <= right_min,
        None => false,
    }
}

/// Whether no value of `left` is at most a value of `right`.
pub fn never_less_equal(store: &DomainStore, left: VariableId, right: VariableId) -> (r: bool)
    requires
        left.index < store@.len(),
        right.index < store@.len(),
    ensures
        r == bounds_never(store@[left.index as int], store@[right.index as int], false),
{
    match both_bounds(store, left, right) {
        Some((left_min, _, _, right_max)) => left_min > right_max,
        None => false,
    }
}

/// Whether every value of `left` is below every value of `right`.
pub fn always_less_than(store: &DomainStore, left: VariableId, right: VariableId) -> (r: bool)
    requires
        left.index < store@.len(),
        right.index < store@.len(),
    ensures
        r == bounds_always(store@[left.index as int], store@[right.index as int], true),
{
    match both_bounds(store, left, right) {
        Some((_, left_max, right_min, _)) => left_max < right_min,
        None => false,
    }
}

/// Whether the smallest value of `left` is at least the largest value of `right`.
pub fn never_less_than(store: &DomainStore, left: VariableId, right: VariableId) -> (r: bool)
    requires
        left.index < store@.len(),
        right.index < store@.len(),
    ensures
        r == bounds_never(store@[left.index as int], store@[right.index as int], true),
{
    match both_bounds(store, left, right) {
        Some((left_min, _, _, right_max)) => left_min >= right_max,
        None => false,
    }
}

} // verus!
