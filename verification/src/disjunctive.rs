//! Reasoning for the disjunctive (unary resource) constraint.
use crate::arith::{clamp_i32, clamp_i32_spec};
use crate::diffn::cut_below;
use crate::domain::{
    at_most, greatest, in_i32_range, is_greatest, is_least, least, lemma_greatest_is, lemma_least_is,
    lemma_member_in_bounds, lemma_narrow_step, narrows,
    seq_has, total_size, lemma_total_size_narrows, DomainStore, PropagationStatus, VariableId,
};
use crate::int_mod::is_fixed;
use crate::solutions::{assignment_on, has_solution_on, keeps_on};
use vstd::prelude::*;

verus! {

broadcast use vstd::seq_lib::group_to_multiset_ensures;

/// `s` is ordered by the first component of its entries.
pub open spec fn sorted_by_first(s: Seq<(i32, i32)>) -> bool {
    forall|a: int, b: int| 0 <= a < b < s.len() ==> s[a].0 <= s[b].0
}

/// Earliest completion when tasks run back to back in the order of `s`, each starting no
/// earlier than its release time, with saturating `i32` arithmetic.
pub open spec fn ect_fold(s: Seq<(i32, i32)>) -> int
    decreases s.len(),
{
    if s.len() == 0 {
        0
    } else {
        let prev = ect_fold(s.drop_last());
        let start = if prev >= s.last().0 { prev } else { s.last().0 as int };
        clamp_i32_spec(start + s.last().1)
    }
}

proof fn lemma_ect_fold_range(s: Seq<(i32, i32)>)
    ensures
        i32::MIN <= ect_fold(s) <= i32::MAX,
    decreases s.len(),
{
    if s.len() > 0 {
        lemma_ect_fold_range(s.drop_last());
    }
}

/// `s` with `x` inserted after every entry whose key is at most `x`'s: one step of a
/// stable insertion sort.
pub open spec fn stable_insert<A>(s: Seq<A>, x: A, key: spec_fn(A) -> int) -> Seq<A>
    decreases s.len(),
{
    if s.len() == 0 {
        seq![x]
    } else if key(s.last()) > key(x) {
        stable_insert(s.drop_last(), x, key).push(s.last())
    } else {
        s.push(x)
    }
}

/// `e` sorted by `key`, equal keys keeping their order in `e`.
pub open spec fn stable_sort_by<A>(e: Seq<A>, key: spec_fn(A) -> int) -> Seq<A>
    decreases e.len(),
{
    if e.len() == 0 {
        Seq::empty()
    } else {
        stable_insert(stable_sort_by(e.drop_last(), key), e.last(), key)
    }
}

/// Orders entries by release time.
pub open spec fn by_release() -> spec_fn((i32, i32)) -> int {
    |e: (i32, i32)| e.0 as int
}

/// Inserting at the position after the last entry whose key is at most `x`'s is the
/// stable insertion.
pub proof fn lemma_stable_insert_at<A>(s: Seq<A>, x: A, key: spec_fn(A) -> int, p: int)
    requires
        0 <= p <= s.len(),
        forall|k: int| p <= k < s.len() ==> key(#[trigger] s[k]) > key(x),
        p == 0 || key(s[p - 1]) <= key(x),
    ensures
        s.insert(p, x) == stable_insert(s, x, key),
    decreases s.len(),
{
    if s.len() == 0 {
        assert(s.insert(p, x) =~= seq![x]);
    } else if p == s.len() {
        assert(s.insert(p, x) =~= s.push(x));
    } else {
        let d = s.drop_last();
        assert(key(s[s.len() - 1]) > key(x));
        assert forall|k: int| p <= k < d.len() implies key(#[trigger] d[k]) > key(x) by {
            assert(d[k] == s[k]);
        }
        if p > 0 {
            assert(d[p - 1] == s[p - 1]);
        }
        lemma_stable_insert_at(d, x, key, p);
        assert(s.insert(p, x) =~= d.insert(p, x).push(s.last()));
    }
}

/// Stable sort of `entries` by their first component.
fn sort_by_first(entries: &[(i32, i32)]) -> (sorted: Vec<(i32, i32)>)
    ensures
        sorted_by_first(sorted@),
        sorted@.to_multiset() == entries@.to_multiset(),
        sorted@ == stable_sort_by(entries@, by_release()),
{
    let mut sorted: Vec<(i32, i32)> = Vec::new();
    let mut i: usize = 0;
    while i < entries.len()
        invariant
            0 <= i <= entries.len(),
            sorted_by_first(sorted@),
            sorted@.to_multiset() == entries@.take(i as int).to_multiset(),
            sorted@ == stable_sort_by(entries@.take(i as int), by_release()),
        decreases entries.len() - i,
    {
        let x = entries[i];
        let mut p: usize = sorted.len();
        while p > 0 && sorted[p - 1].0 > x.0
            invariant
                0 <= p <= sorted@.len(),
                forall|k: int| p <= k < sorted@.len() ==> sorted@[k].0 > x.0,
            decreases p,
        {
            p = p - 1;
        }
        let ghost old_sorted = sorted@;
        proof {
            lemma_stable_insert_at(old_sorted, x, by_release(), p as int);
            assert(entries@.take(i + 1).drop_last() =~= entries@.take(i as int));
            assert(entries@.take(i + 1).last() == x);
        }
        sorted.insert(p, x);
        proof {
            assert(sorted@ == old_sorted.insert(p as int, x));
            assert forall|a: int, b: int| 0 <= a < b < sorted@.len() implies sorted@[a].0 <= sorted@[b].0 by {
                if b < p {
                } else if b == p {
                    if p > 0 {
                        assert(old_sorted[p - 1].0 <= x.0);
                        assert(old_sorted[a].0 <= old_sorted[p - 1].0 || a == p - 1);
                    }
                } else if a < p {
                    assert(sorted@[b] == old_sorted[b - 1]);
                } else if a == p {
                    assert(sorted@[b] == old_sorted[b - 1]);
                } else {
                    assert(sorted@[a] == old_sorted[a - 1]);
                    assert(sorted@[b] == old_sorted[b - 1]);
                }
            }
            assert(entries@.take(i + 1) == entries@.take(i as int).push(x));
        }
        i = i + 1;
    }
    assert(entries@.take(entries.len() as int) == entries@);
    sorted
}

/// Earliest completion time of `entries` (release time, duration) scheduled in order of
/// release time.
pub fn theta_tree_ect(entries: &[(i32, i32)]) -> (r: i32)
    ensures
        exists|s: Seq<(i32, i32)>| sorted_by_first(s) && s.to_multiset() == entries@.to_multiset() && r == ect_fold(s),
        r == ect_fold(stable_sort_by(entries@, by_release())),
{
    let sorted = sort_by_first(entries);
    let mut completion: i32 = 0;
    let mut i: usize = 0;
    while i < sorted.len()
        invariant
            0 <= i <= sorted@.len(),
            completion == ect_fold(sorted@.take(i as int)),
        decreases sorted@.len() - i,
    {
        let (est, duration) = sorted[i];
        let start = if completion >= est { completion } else { est };
        proof {
            assert(sorted@.take(i + 1).drop_last() == sorted@.take(i as int));
            assert(sorted@.take(i + 1).last() == sorted@[i as int]);
        }
        completion = clamp_i32(start as i64 + duration as i64);
        i = i + 1;
    }
    assert(sorted@.take(sorted@.len() as int) == sorted@);
    completion
}


/// One task on a single machine: its start variable and fixed duration.
#[derive(Clone, Copy, Debug)]
pub struct DisjunctiveTask {
    /// Task start time variable.
    pub start: VariableId,
    /// Fixed task duration.
    pub duration: i32,
}

/// The start domain of `t` in `s`.
pub open spec fn start_dom(s: Seq<Set<int>>, t: DisjunctiveTask) -> Set<int> {
    s[t.start.index as int]
}

/// Both tasks are fixed and their runs overlap (ends saturating into `i32`).
pub open spec fn fixed_overlap(s: Seq<Set<int>>, l: DisjunctiveTask, r: DisjunctiveTask) -> bool {
    &&& is_fixed(start_dom(s, l))
    &&& is_fixed(start_dom(s, r))
    &&& {
        let ls = least(start_dom(s, l));
        let rs = least(start_dom(s, r));
        &&& clamp_i32_spec(ls + l.duration) > rs
        &&& clamp_i32_spec(rs + r.duration) > ls
    }
}

/// Store after forcing `before` to run before `after`: `after` may start no earlier than
/// the earliest end of `before`, and `before` no later than the latest start of `after`
/// minus its duration (both read on `s`).
pub open spec fn force_before_spec(s: Seq<Set<int>>, before: DisjunctiveTask, after: DisjunctiveTask) -> Seq<Set<int>> {
    if start_dom(s, before).is_empty() || start_dom(s, after).is_empty() {
        s
    } else {
        let t = cut_below(s, after.start.index as int, clamp_i32_spec(least(start_dom(s, before)) + before.duration));
        let k = before.start.index as int;
        t.update(k, at_most(t[k], clamp_i32_spec(greatest(start_dom(s, after)) - before.duration)))
    }
}

/// Store after detecting that `before` cannot end before `after` can start, in which
/// case `after` is forced before `before`.
pub open spec fn enforce_before_spec(s: Seq<Set<int>>, before: DisjunctiveTask, after: DisjunctiveTask) -> Seq<Set<int>> {
    if start_dom(s, before).is_empty() || start_dom(s, after).is_empty() {
        s
    } else if clamp_i32_spec(least(start_dom(s, before)) + before.duration) > greatest(start_dom(s, after)) {
        force_before_spec(s, after, before)
    } else {
        s
    }
}

/// The start values of `other` that would overlap the run of `fixed` starting at `fs`.
pub open spec fn overlap_values(fs: int, fixed: DisjunctiveTask, other: DisjunctiveTask) -> spec_fn(int) -> bool {
    |v: int| v < clamp_i32_spec(fs + fixed.duration) && clamp_i32_spec(v + other.duration) > fs
}

/// Store after removing from `other` the starts that overlap `fixed`, when `fixed` is
/// fixed.
pub open spec fn forbid_overlap_spec(s: Seq<Set<int>>, fixed: DisjunctiveTask, other: DisjunctiveTask) -> Seq<Set<int>> {
    if is_fixed(start_dom(s, fixed)) {
        let hit = overlap_values(least(start_dom(s, fixed)), fixed, other);
        s.update(other.start.index as int, start_dom(s, other).filter(|v: int| !hit(v)))
    } else {
        s
    }
}

/// Store after the pair rules for `l` and `r`: each detected precedence, then the starts
/// that overlap a fixed task, removed from the other in both directions.
pub open spec fn pair_rules(s: Seq<Set<int>>, l: DisjunctiveTask, r: DisjunctiveTask) -> Seq<Set<int>> {
    let p = enforce_before_spec(enforce_before_spec(s, l, r), r, l);
    forbid_overlap_spec(forbid_overlap_spec(p, l, r), r, l)
}

/// Every task's start variable names a domain of a store of `n` domains.
pub open spec fn tasks_in_range(tasks: Seq<DisjunctiveTask>, n: nat) -> bool {
    forall|i: int| 0 <= i < tasks.len() ==> (#[trigger] tasks[i]).start.index < n
}

/// Some two tasks of `tasks` are fixed and overlap.
pub open spec fn some_fixed_overlap(s: Seq<Set<int>>, tasks: Seq<DisjunctiveTask>) -> bool {
    exists|i: int, j: int| 0 <= i < j < tasks.len() && fixed_overlap(s, #[trigger] tasks[i], #[trigger] tasks[j])
}

/// Some task's start domain is empty.
pub open spec fn some_start_empty(s: Seq<Set<int>>, tasks: Seq<DisjunctiveTask>) -> bool {
    exists|i: int| 0 <= i < tasks.len() && start_dom(s, #[trigger] tasks[i]).is_empty()
}

/// Least earliest start over the tasks with a non-empty start domain.
pub open spec fn min_est(s: Seq<Set<int>>, tasks: Seq<DisjunctiveTask>) -> Option<int>
    decreases tasks.len(),
{
    if tasks.len() == 0 {
        None
    } else {
        let rest = min_est(s, tasks.drop_last());
        let d = start_dom(s, tasks.last());
        if d.is_empty() {
            rest
        } else {
            match rest {
                Some(m) => Some(if least(d) < m { least(d) } else { m }),
                None => Some(least(d)),
            }
        }
    }
}

/// Greatest latest completion over the tasks with a non-empty start domain.
pub open spec fn max_lct(s: Seq<Set<int>>, tasks: Seq<DisjunctiveTask>) -> Option<int>
    decreases tasks.len(),
{
    if tasks.len() == 0 {
        None
    } else {
        let rest = max_lct(s, tasks.drop_last());
        let d = start_dom(s, tasks.last());
        if d.is_empty() {
            rest
        } else {
            let c = clamp_i32_spec(greatest(d) + tasks.last().duration);
            match rest {
                Some(m) => Some(if c > m { c } else { m }),
                None => Some(c),
            }
        }
    }
}

/// Sum of the durations of `tasks`.
pub open spec fn duration_sum(tasks: Seq<DisjunctiveTask>) -> int
    decreases tasks.len(),
{
    if tasks.len() == 0 {
        0
    } else {
        duration_sum(tasks.drop_last()) + tasks.last().duration
    }
}

/// The tasks' durations add up to more than the window from the least earliest start to
/// the greatest latest completion.
pub open spec fn energy_overload(s: Seq<Set<int>>, tasks: Seq<DisjunctiveTask>) -> bool {
    match (min_est(s, tasks), max_lct(s, tasks)) {
        (Some(lo), Some(hi)) => duration_sum(tasks) > clamp_i32_spec(hi - lo),
        _ => false,
    }
}


/// The value of a fixed domain.
fn fixed_start(store: &DomainStore, var: VariableId) -> (r: Option<i32>)
    requires
        var.index < store@.len(),
    ensures
        r is Some <==> is_fixed(store@[var.index as int]),
        r matches Some(v) ==> v == least(store@[var.index as int]) && store@[var.index as int] == set![v as int],
{
    match store.fixed_value(var) {
        Some(v) => {
            proof {
                assert(store@[var.index as int].contains(v as int));
                assert(is_least(store@[var.index as int], v as int));
                lemma_least_is(store@[var.index as int], v as int);
            }
            Some(v)
        },
        None => {
            proof {
                if is_fixed(store@[var.index as int]) {
                    let v = choose|v: int| store@[var.index as int] == set![v];
                    assert(store@[var.index as int] == set![v]);
                }
            }
            None
        },
    }
}

/// Whether both tasks are fixed and overlap ([`fixed_overlap`]).
fn fixed_tasks_overlap(store: &DomainStore, left: DisjunctiveTask, right: DisjunctiveTask) -> (r: bool)
    requires
        left.start.index < store@.len(),
        right.start.index < store@.len(),
    ensures
        r == fixed_overlap(store@, left, right),
{
    match (fixed_start(store, left.start), fixed_start(store, right.start)) {
        (Some(ls), Some(rs)) => {
            let left_end = clamp_i32(ls as i64 + left.duration as i64);
            let right_end = clamp_i32(rs as i64 + right.duration as i64);
            left_end > rs && right_end > ls
        },
        _ => false,
    }
}

/// Forces `before` to run before `after` ([`force_before_spec`]); returns whether a
/// domain changed.
fn force_before(store: &mut DomainStore, before: DisjunctiveTask, after: DisjunctiveTask) -> (changed: bool)
    requires
        before.start.index < old(store)@.len(),
        after.start.index < old(store)@.len(),
    ensures
        final(store)@ == force_before_spec(old(store)@, before, after),
        narrows(old(store)@, final(store)@),
        changed == (final(store)@ != old(store)@),
{
    let ghost s = store@;
    proof {
        assert(narrows(s, s));
    }
    match (store.min(before.start), store.max(after.start)) {
        (Some(before_min_start), Some(after_max_start)) => {
            proof {
                lemma_least_is(s[before.start.index as int], before_min_start as int);
                lemma_greatest_is(s[after.start.index as int], after_max_start as int);
            }
            let min_after_start = clamp_i32(before_min_start as i64 + before.duration as i64);
            let c1 = store.remove_below(after.start, min_after_start);
            let ghost t = store@;
            let max_before_start = clamp_i32(after_max_start as i64 - before.duration as i64);
            let c2 = store.remove_above(before.start, max_before_start);
            proof {
                lemma_narrow_step(s, t, store@, c1, c2);
            }
            c1 || c2
        },
        _ => false,
    }
}

/// Forces `after` before `before` when `before` cannot end before `after` can start
/// ([`enforce_before_spec`]); returns whether a domain changed.
fn enforce_before(store: &mut DomainStore, before: DisjunctiveTask, after: DisjunctiveTask) -> (changed: bool)
    requires
        before.start.index < old(store)@.len(),
        after.start.index < old(store)@.len(),
    ensures
        final(store)@ == enforce_before_spec(old(store)@, before, after),
        narrows(old(store)@, final(store)@),
        changed == (final(store)@ != old(store)@),
{
    let ghost s = store@;
    proof {
        assert(narrows(s, s));
    }
    let before_min_end = match store.min(before.start) {
        Some(start) => clamp_i32(start as i64 + before.duration as i64),
        None => {
            return false;
        },
    };
    let after_max_start = match store.max(after.start) {
        Some(v) => v,
        None => {
            return false;
        },
    };
    proof {
        lemma_least_is(s[before.start.index as int], least(s[before.start.index as int]));
        lemma_greatest_is(s[after.start.index as int], after_max_start as int);
    }
    if before_min_end > after_max_start {
        return force_before(store, after, before);
    }
    false
}

/// Removes from `other` the starts that overlap `fixed` when `fixed` is fixed
/// ([`forbid_overlap_spec`]); returns whether a domain changed.
fn forbid_overlap_with_known_start(store: &mut DomainStore, fixed: DisjunctiveTask, other: DisjunctiveTask) -> (changed: bool)
    requires
        fixed.start.index < old(store)@.len(),
        other.start.index < old(store)@.len(),
    ensures
        final(store)@ == forbid_overlap_spec(old(store)@, fixed, other),
        narrows(old(store)@, final(store)@),
        changed == (final(store)@ != old(store)@),
{
    let ghost s = store@;
    let ghost o = other.start.index as int;
    proof {
        assert(narrows(s, s));
    }
    let fixed_start_value = match fixed_start(store, fixed.start) {
        Some(v) => v,
        None => {
            return false;
        },
    };
    let fixed_end = clamp_i32(fixed_start_value as i64 + fixed.duration as i64);
    let ghost hit = overlap_values(fixed_start_value as int, fixed, other);
    let values = store.values(other.start);
    let mut changed = false;
    let mut k: usize = 0;
    proof {
        assert(s[o].filter(|x: int| !(hit(x) && seq_has(values@.take(0), x))) =~= s[o]);
        assert(s.update(o, s[o]) =~= s);
    }
    while k < values.len()
        invariant
            0 <= k <= values@.len(),
            o == other.start.index,
            o < s.len(),
            hit == overlap_values(fixed_start_value as int, fixed, other),
            fixed_end == clamp_i32_spec(fixed_start_value + fixed.duration),
            store@ == s.update(o, s[o].filter(|x: int| !(hit(x) && seq_has(values@.take(k as int), x)))),
            narrows(s, store@),
            changed == (store@ != s),
        decreases values@.len() - k,
    {
        let value = values[k];
        let other_end = clamp_i32(value as i64 + other.duration as i64);
        let ghost t = store@;
        proof {
            let ta = values@.take(k + 1);
            let tb = values@.take(k as int);
            assert forall|x: int| seq_has(ta, x) <==> (seq_has(tb, x) || x == value) by {
                if seq_has(ta, x) {
                    let q = choose|q: int| 0 <= q < ta.len() && ta[q] == x;
                    if q < k {
                        assert(tb[q] == x);
                    }
                }
                if seq_has(tb, x) {
                    let q = choose|q: int| 0 <= q < tb.len() && tb[q] == x;
                    assert(ta[q] == x);
                }
                if x == value {
                    assert(ta[k as int] == x);
                }
            }
        }
        if value < fixed_end && other_end > fixed_start_value {
            let step = store.remove_value(other.start, value);
            proof {
                assert(hit(value as int));
                assert(t[o].remove(value as int) =~= s[o].filter(|x: int| !(hit(x) && seq_has(values@.take(k + 1), x))));
                assert(store@ =~= s.update(o, s[o].filter(|x: int| !(hit(x) && seq_has(values@.take(k + 1), x)))));
                lemma_narrow_step(s, t, store@, changed, step);
            }
            changed = changed || step;
        } else {
            proof {
                assert(!hit(value as int));
                assert(s[o].filter(|x: int| !(hit(x) && seq_has(values@.take(k + 1), x))) =~= s[o].filter(
                    |x: int| !(hit(x) && seq_has(values@.take(k as int), x)),
                ));
            }
        }
        k = k + 1;
    }
    proof {
        assert(values@.take(k as int) =~= values@);
        assert(s[o].filter(|x: int| !(hit(x) && seq_has(values@, x))) =~= s[o].filter(|x: int| !hit(x)));
    }
    changed
}

/// Applies [`pair_rules`] to `left` and `right`; returns whether a domain changed.
fn propagate_pair(store: &mut DomainStore, left: DisjunctiveTask, right: DisjunctiveTask) -> (changed: bool)
    requires
        left.start.index < old(store)@.len(),
        right.start.index < old(store)@.len(),
    ensures
        final(store)@ == pair_rules(old(store)@, left, right),
        narrows(old(store)@, final(store)@),
        changed == (final(store)@ != old(store)@),
        forall|w: Set<int>|
            w.contains(left.start.index as int) && w.contains(right.start.index as int) ==> #[trigger] keeps_apart(
                old(store)@,
                final(store)@,
                left,
                right,
                w,
            ),
{
    let ghost s0 = store@;
    store.assert_in_range();
    let c1 = enforce_before(store, left, right);
    let ghost t1 = store@;
    store.assert_in_range();
    let c2 = enforce_before(store, right, left);
    let ghost t2 = store@;
    store.assert_in_range();
    proof {
        lemma_narrow_step(s0, t1, t2, c1, c2);
    }
    let c3 = forbid_overlap_with_known_start(store, left, right);
    let ghost t3 = store@;
    store.assert_in_range();
    proof {
        lemma_narrow_step(s0, t2, t3, c1 || c2, c3);
    }
    let c4 = forbid_overlap_with_known_start(store, right, left);
    proof {
        lemma_narrow_step(s0, t3, store@, c1 || c2 || c3, c4);
        assert forall|w: Set<int>| w.contains(left.start.index as int) && w.contains(right.start.index as int) implies #[trigger] keeps_apart(
            s0,
            store@,
            left,
            right,
            w,
        ) by {
            lemma_enforce_keeps(s0, left, right, w);
            lemma_enforce_keeps(t1, right, left, w);
            lemma_forbid_keeps(t2, left, right, w);
            lemma_forbid_keeps(t3, right, left, w);
            assert forall|sigma: Seq<int>| assignment_on(s0, sigma, w) && #[trigger] apart(sigma, left, right) implies assignment_on(
                store@,
                sigma,
                w,
            ) by {
                assert(apart(sigma, right, left));
            }
        }
    }
    c1 || c2 || c3 || c4
}


/// Whether the durations exceed the window of the tasks ([`energy_overload`]).
fn disjunctive_energy_overload(store: &DomainStore, tasks: &Vec<DisjunctiveTask>) -> (r: bool)
    requires
        tasks_in_range(tasks@, store@.len()),
    ensures
        r == energy_overload(store@, tasks@),
{
    let mut lo: Option<i32> = None;
    let mut hi: Option<i32> = None;
    let mut total: i128 = 0;
    let mut i: usize = 0;
    while i < tasks.len()
        invariant
            0 <= i <= tasks@.len(),
            tasks_in_range(tasks@, store@.len()),
            lo == (match min_est(store@, tasks@.take(i as int)) {
                Some(m) => Some(m as i32),
                None => None::<i32>,
            }),
            min_est(store@, tasks@.take(i as int)) matches Some(m) ==> i32::MIN <= m <= i32::MAX,
            hi == (match max_lct(store@, tasks@.take(i as int)) {
                Some(m) => Some(m as i32),
                None => None::<i32>,
            }),
            max_lct(store@, tasks@.take(i as int)) matches Some(m) ==> i32::MIN <= m <= i32::MAX,
            total == duration_sum(tasks@.take(i as int)),
            i32::MIN * i <= total <= i32::MAX * i,
        decreases tasks@.len() - i,
    {
        let task = tasks[i];
        proof {
            assert(tasks@.take(i + 1).drop_last() =~= tasks@.take(i as int));
            assert(tasks@.take(i + 1).last() == task);
            assert(task == tasks@[i as int]);
        }
        match (store.min(task.start), store.max(task.start)) {
            (Some(est), Some(lst)) => {
                proof {
                    lemma_least_is(start_dom(store@, task), est as int);
                    lemma_greatest_is(start_dom(store@, task), lst as int);
                }
                lo = match lo {
                    Some(m) => Some(if est < m { est } else { m }),
                    None => Some(est),
                };
                let lct = clamp_i32(lst as i64 + task.duration as i64);
                hi = match hi {
                    Some(m) => Some(if lct > m { lct } else { m }),
                    None => Some(lct),
                };
            },
            _ => {},
        }
        total = total + task.duration as i128;
        i = i + 1;
    }
    proof {
        assert(tasks@.take(i as int) =~= tasks@);
    }
    match (lo, hi) {
        (Some(l), Some(h)) => total > clamp_i32(h as i64 - l as i64) as i128,
        _ => false,
    }
}

/// Earliest end of task bounds `(est, lst, ect)`, `i32::MAX` for none.
fn ect_key(b: Option<(i32, i32, i32)>) -> (k: i32)
    ensures
        k == match b {
            Some(t) => t.2,
            None => i32::MAX,
        },
{
    match b {
        Some((_, _, ect)) => ect,
        None => i32::MAX,
    }
}

/// Bounds `(est, lst, ect)` of a task with a non-empty start domain in `s`.
pub open spec fn ef_bound(s: Seq<Set<int>>, t: DisjunctiveTask) -> Option<(i32, i32, i32)> {
    let d = start_dom(s, t);
    if d.is_empty() {
        None
    } else {
        Some((least(d) as i32, greatest(d) as i32, clamp_i32_spec(least(d) + t.duration) as i32))
    }
}

/// The bounds of every task, read on `s`.
pub open spec fn ef_bounds(s: Seq<Set<int>>, tasks: Seq<DisjunctiveTask>) -> Seq<Option<(i32, i32, i32)>> {
    Seq::new(tasks.len(), |i: int| ef_bound(s, tasks[i]))
}

/// Orders task positions by earliest end, `i32::MAX` for a task without bounds.
pub open spec fn by_ect(bounds: Seq<Option<(i32, i32, i32)>>) -> spec_fn(usize) -> int {
    |i: usize| match bounds[i as int] {
        Some(b) => b.2 as int,
        None => i32::MAX as int,
    }
}

/// The positions below `m` other than `origin`, stably ordered by earliest end.
pub open spec fn ef_order(bounds: Seq<Option<(i32, i32, i32)>>, origin: int, m: int) -> Seq<usize>
    decreases m,
{
    if m <= 0 {
        Seq::empty()
    } else {
        let prev = ef_order(bounds, origin, m - 1);
        if m - 1 == origin {
            prev
        } else {
            stable_insert(prev, (m - 1) as usize, by_ect(bounds))
        }
    }
}

/// Store and added tasks after the first `k` tasks of `order` are considered against
/// `origin` with latest start `lst` and earliest end `oect`: a task that can end by `lst`
/// is added, and when the earliest completion of the added tasks passes `lst`, the task
/// is forced before `origin` if `origin` cannot end by the task's latest start.
pub open spec fn ef_scan(
    s: Seq<Set<int>>,
    tasks: Seq<DisjunctiveTask>,
    bounds: Seq<Option<(i32, i32, i32)>>,
    origin: int,
    lst: i32,
    oect: i32,
    order: Seq<usize>,
    k: nat,
) -> (Seq<Set<int>>, Seq<(i32, i32)>)
    decreases k,
{
    if k == 0 {
        (s, Seq::empty())
    } else {
        let (t, entries) = ef_scan(s, tasks, bounds, origin, lst, oect, order, (k - 1) as nat);
        let idx = order[k - 1] as int;
        match bounds[idx] {
            Some(b) => if b.2 <= lst {
                let e2 = entries.push((b.0, tasks[idx].duration));
                if ect_fold(stable_sort_by(e2, by_release())) > lst && oect > b.1 {
                    (force_before_spec(t, tasks[idx], tasks[origin]), e2)
                } else {
                    (t, e2)
                }
            } else {
                (t, entries)
            },
            None => (t, entries),
        }
    }
}

/// Store after the first `o` tasks, as origins, had their detectable precedences
/// applied ([`ef_scan`] over [`ef_order`]), all bounds read on the store at the start.
pub open spec fn ef_origins(
    s: Seq<Set<int>>,
    tasks: Seq<DisjunctiveTask>,
    bounds: Seq<Option<(i32, i32, i32)>>,
    o: nat,
) -> Seq<Set<int>>
    decreases o,
{
    if o == 0 {
        s
    } else {
        let t = ef_origins(s, tasks, bounds, (o - 1) as nat);
        match bounds[o - 1] {
            None => t,
            Some(b) => {
                let order = ef_order(bounds, o - 1, tasks.len() as int);
                ef_scan(t, tasks, bounds, o - 1, b.1, b.2, order, order.len()).0
            },
        }
    }
}

/// Store after detectable precedences against every task's latest start.
pub open spec fn edge_finding_result(s: Seq<Set<int>>, tasks: Seq<DisjunctiveTask>) -> Seq<Set<int>> {
    ef_origins(s, tasks, ef_bounds(s, tasks), tasks.len())
}

/// Forcing `tasks[i]` before `tasks[o]` keeps the solutions when `tasks[o]` cannot end
/// by the latest start of `tasks[i]`, both read on the store `s0` the solutions come from.
proof fn lemma_precedence_keeps(
    s0: Seq<Set<int>>,
    t: Seq<Set<int>>,
    u: Seq<Set<int>>,
    tasks: Seq<DisjunctiveTask>,
    i: int,
    o: int,
)
    requires
        0 <= i < tasks.len(),
        0 <= o < tasks.len(),
        i != o,
        tasks_in_range(tasks, s0.len()),
        domains_ok(s0),
        domains_ok(t),
        t.len() == s0.len(),
        !start_dom(s0, tasks[o]).is_empty(),
        !start_dom(s0, tasks[i]).is_empty(),
        clamp_i32_spec(least(start_dom(s0, tasks[o])) + tasks[o].duration) > greatest(start_dom(s0, tasks[i])),
        keeps_on(s0, t, no_overlap(tasks), task_starts(tasks)),
        u == force_before_spec(t, tasks[i], tasks[o]),
    ensures
        keeps_on(s0, u, no_overlap(tasks), task_starts(tasks)),
{
    let c = no_overlap(tasks);
    let w = task_starts(tasks);
    let ii = tasks[i].start.index as int;
    let oi = tasks[o].start.index as int;
    lemma_task_start_in(tasks, i);
    lemma_task_start_in(tasks, o);
    assert forall|sigma: Seq<int>| assignment_on(s0, sigma, w) && #[trigger] c(sigma) implies assignment_on(u, sigma, w) by {
        assert(s0[ii].contains(sigma[ii]));
        assert(s0[oi].contains(sigma[oi]));
        lemma_member_in_bounds(s0[ii], sigma[ii]);
        lemma_member_in_bounds(s0[oi], sigma[oi]);
        assert(in_i32_range(s0[ii]) && in_i32_range(s0[oi]));
        if i < o {
            assert(apart(sigma, tasks[i], tasks[o]));
        } else {
            assert(apart(sigma, tasks[o], tasks[i]));
        }
        assert(assignment_on(t, sigma, w));
        lemma_force_keeps(t, tasks[i], tasks[o], w, sigma);
    }
}

/// Detectable precedences against each task's latest start: for every task `origin`
/// with a non-empty domain, the other tasks that can end by its latest start are added
/// in order of earliest end, and each one whose addition makes the earliest completion
/// of the added tasks pass that latest start, and whose own latest start is before the
/// earliest end of `origin`, is forced before `origin` ([`edge_finding_result`]).
/// Returns whether a domain changed.
fn propagate_edge_finding(store: &mut DomainStore, tasks: &Vec<DisjunctiveTask>) -> (changed: bool)
    requires
        tasks_in_range(tasks@, old(store)@.len()),
    ensures
        narrows(old(store)@, final(store)@),
        changed == (final(store)@ != old(store)@),
        final(store)@ == edge_finding_result(old(store)@, tasks@),
        keeps_on(old(store)@, final(store)@, no_overlap(tasks@), task_starts(tasks@)),
{
    let ghost s0 = store@;
    let ghost cons = no_overlap(tasks@);
    let ghost w = task_starts(tasks@);
    store.assert_in_range();
    let n = tasks.len();
    let mut bounds: Vec<Option<(i32, i32, i32)>> = Vec::new();
    let mut i: usize = 0;
    while i < n
        invariant
            0 <= i <= n,
            n == tasks@.len(),
            bounds@.len() == i,
            store@ == s0,
            tasks_in_range(tasks@, s0.len()),
            forall|k: int| 0 <= k < i ==> bounds@[k] == ef_bound(s0, #[trigger] tasks@[k]),
        decreases n - i,
    {
        let task = tasks[i];
        proof {
            assert(tasks@[i as int].start.index < s0.len());
        }
        let b = match (store.min(task.start), store.max(task.start)) {
            (Some(est), Some(lst)) => {
                proof {
                    lemma_least_is(s0[task.start.index as int], est as int);
                    lemma_greatest_is(s0[task.start.index as int], lst as int);
                }
                Some((est, lst, clamp_i32(est as i64 + task.duration as i64)))
            },
            _ => None,
        };
        proof {
            assert(b == ef_bound(s0, task));
        }
        bounds.push(b);
        i = i + 1;
    }
    let ghost bs = bounds@;
    proof {
        assert(bs =~= ef_bounds(s0, tasks@));
    }
    let mut changed = false;
    proof {
        assert(narrows(s0, s0));
    }
    let mut origin: usize = 0;
    while origin < n
        invariant
            0 <= origin <= n,
            n == tasks@.len(),
            bounds@ == bs,
            bs == ef_bounds(s0, tasks@),
            store@.len() == s0.len(),
            tasks_in_range(tasks@, s0.len()),
            narrows(s0, store@),
            changed == (store@ != s0),
            s0 == old(store)@,
            store@ == ef_origins(s0, tasks@, bs, origin as nat),
            domains_ok(s0),
            cons == no_overlap(tasks@),
            w == task_starts(tasks@),
            keeps_on(s0, store@, cons, w),
        decreases n - origin,
    {
        let ghost t_origin = store@;
        match bounds[origin] {
            None => {},
            Some((_, lst, origin_ect)) => {
                let mut others: Vec<usize> = Vec::new();
                let mut index: usize = 0;
                while index < n
                    invariant
                        0 <= index <= n,
                        n == tasks@.len(),
                        bounds@ == bs,
                        bs.len() == n,
                        forall|k: int| 0 <= k < others@.len() ==> others@[k] < n,
                        forall|k: int| 0 <= k < others@.len() ==> others@[k] != origin,
                        others@ == ef_order(bs, origin as int, index as int),
                    decreases n - index,
                {
                    if index != origin {
                        let key = ect_key(bounds[index]);
                        let mut p: usize = others.len();
                        while p > 0 && ect_key(bounds[others[p - 1]]) > key
                            invariant
                                0 <= p <= others@.len(),
                                n == tasks@.len(),
                                bounds@ == bs,
                                bs.len() == n,
                                index < n,
                                key == by_ect(bs)(index),
                                forall|k: int| 0 <= k < others@.len() ==> others@[k] < n,
                                forall|k: int| 0 <= k < others@.len() ==> others@[k] != origin,
                                index != origin,
                                forall|k: int| p <= k < others@.len() ==> by_ect(bs)(#[trigger] others@[k]) > key,
                            decreases p,
                        {
                            p = p - 1;
                        }
                        proof {
                            if p > 0 {
                                assert(by_ect(bs)(others@[p - 1]) <= key);
                            }
                            lemma_stable_insert_at(others@, index, by_ect(bs), p as int);
                        }
                        others.insert(p, index);
                    }
                    index = index + 1;
                }
                let ghost order = others@;
                let mut entries: Vec<(i32, i32)> = Vec::new();
                let mut k: usize = 0;
                while k < others.len()
                    invariant
                        0 <= k <= others@.len(),
                        others@ == order,
                        origin < n,
                        n == tasks@.len(),
                        bounds@ == bs,
                        bs.len() == n,
                        bs[origin as int] is Some,
                        lst == bs[origin as int].unwrap().1,
                        origin_ect == bs[origin as int].unwrap().2,
                        forall|q: int| 0 <= q < others@.len() ==> others@[q] < n,
                        store@.len() == s0.len(),
                        tasks_in_range(tasks@, s0.len()),
                        narrows(s0, store@),
                        changed == (store@ != s0),
                        (store@, entries@) == ef_scan(t_origin, tasks@, bs, origin as int, lst, origin_ect, order, k as nat),
                        forall|q: int| 0 <= q < others@.len() ==> others@[q] != origin,
                        domains_ok(s0),
                        s0 == old(store)@,
                        bs == ef_bounds(s0, tasks@),
                        cons == no_overlap(tasks@),
                        w == task_starts(tasks@),
                        keeps_on(s0, store@, cons, w),
                    decreases others@.len() - k,
                {
                    let idx = others[k];
                    match bounds[idx] {
                        Some((est, idx_lst, ect)) => {
                            if ect <= lst {
                                entries.push((est, tasks[idx].duration));
                                if theta_tree_ect(entries.as_slice()) > lst && origin_ect > idx_lst {
                                    let ghost t = store@;
                                    proof {
                                        assert(tasks@[idx as int].start.index < s0.len());
                                        assert(tasks@[origin as int].start.index < s0.len());
                                    }
                                    store.assert_in_range();
                                    let step = force_before(store, tasks[idx], tasks[origin]);
                                    proof {
                                        lemma_narrow_step(s0, t, store@, changed, step);
                                        let di = start_dom(s0, tasks@[idx as int]);
                                        let dorig = start_dom(s0, tasks@[origin as int]);
                                        assert(bs[idx as int] == ef_bound(s0, tasks@[idx as int]));
                                        assert(bs[origin as int] == ef_bound(s0, tasks@[origin as int]));
                                        assert(in_i32_range(di) && di.finite());
                                        assert(in_i32_range(dorig) && dorig.finite());
                                        crate::domain::lemma_greatest_exists(di);
                                        crate::domain::lemma_least_exists(dorig);
                                        lemma_precedence_keeps(s0, t, store@, tasks@, idx as int, origin as int);
                                    }
                                    changed = changed || step;
                                }
                            }
                        },
                        None => {},
                    }
                    k = k + 1;
                }
            },
        }
        origin = origin + 1;
    }
    changed
}

/// Every pair `(a, b)` with `a < left`, or `a == left` and `b < right`, leaves the store
/// `s` alone under [`pair_rules`] and does not overlap fixed.
pub open spec fn pairs_settled(s: Seq<Set<int>>, tasks: Seq<DisjunctiveTask>, left: int, right: int) -> bool {
    forall|a: int, b: int|
        0 <= a < b < tasks.len() && (a < left || (a == left && b < right)) ==> {
            &&& pair_rules(s, #[trigger] tasks[a], #[trigger] tasks[b]) == s
            &&& !fixed_overlap(s, tasks[a], tasks[b])
        }
}

/// The runs of `l` and `r` under the starts `sigma` do not overlap: one ends no later
/// than the other starts.
pub open spec fn apart(sigma: Seq<int>, l: DisjunctiveTask, r: DisjunctiveTask) -> bool {
    ||| sigma[l.start.index as int] + l.duration <= sigma[r.start.index as int]
    ||| sigma[r.start.index as int] + r.duration <= sigma[l.start.index as int]
}

/// No two tasks of `tasks` overlap under the starts `sigma`.
pub open spec fn no_overlap(tasks: Seq<DisjunctiveTask>) -> spec_fn(Seq<int>) -> bool {
    |sigma: Seq<int>| forall|i: int, j: int| 0 <= i < j < tasks.len() ==> #[trigger] apart(sigma, tasks[i], tasks[j])
}

/// The start variables of `tasks`.
pub open spec fn task_starts(tasks: Seq<DisjunctiveTask>) -> Set<int> {
    Set::new(|k: int| exists|i: int| 0 <= i < tasks.len() && (#[trigger] tasks[i]).start.index == k)
}

/// Every domain of `s` is finite and fits in an `i32`.
pub open spec fn domains_ok(s: Seq<Set<int>>) -> bool {
    forall|i: int| 0 <= i < s.len() ==> in_i32_range(#[trigger] s[i]) && s[i].finite()
}

/// Every assignment of `w` in `s` under which `l` and `r` do not overlap is one in `t`.
pub open spec fn keeps_apart(s: Seq<Set<int>>, t: Seq<Set<int>>, l: DisjunctiveTask, r: DisjunctiveTask, w: Set<int>) -> bool {
    forall|sigma: Seq<int>| assignment_on(s, sigma, w) && #[trigger] apart(sigma, l, r) ==> assignment_on(t, sigma, w)
}

/// Forcing `before` before `after` keeps every assignment that runs them in that order.
proof fn lemma_force_keeps(s: Seq<Set<int>>, before: DisjunctiveTask, after: DisjunctiveTask, w: Set<int>, sigma: Seq<int>)
    requires
        domains_ok(s),
        before.start.index < s.len(),
        after.start.index < s.len(),
        w.contains(before.start.index as int),
        w.contains(after.start.index as int),
        assignment_on(s, sigma, w),
        sigma[before.start.index as int] + before.duration <= sigma[after.start.index as int],
    ensures
        assignment_on(force_before_spec(s, before, after), sigma, w),
{
    let bi = before.start.index as int;
    let ai = after.start.index as int;
    assert(s[bi].contains(sigma[bi]));
    assert(s[ai].contains(sigma[ai]));
    lemma_member_in_bounds(s[bi], sigma[bi]);
    lemma_member_in_bounds(s[ai], sigma[ai]);
    assert(in_i32_range(s[ai]) && in_i32_range(s[bi]));
    let lo = clamp_i32_spec(least(start_dom(s, before)) + before.duration);
    let t = cut_below(s, ai, lo);
    assert(sigma[ai] >= lo);
    assert(t[ai].contains(sigma[ai]));
    let hi = clamp_i32_spec(greatest(start_dom(s, after)) - before.duration);
    assert(sigma[bi] <= hi);
    let f = t.update(bi, at_most(t[bi], hi));
    assert(f == force_before_spec(s, before, after));
    assert forall|i: int| 0 <= i < f.len() && w.contains(i) implies #[trigger] f[i].contains(sigma[i]) by {
        assert(s[i].contains(sigma[i]));
    }
}

/// Forcing the detected precedence of a pair keeps every assignment under which the
/// pair does not overlap.
proof fn lemma_enforce_keeps(s: Seq<Set<int>>, before: DisjunctiveTask, after: DisjunctiveTask, w: Set<int>)
    requires
        domains_ok(s),
        before.start.index < s.len(),
        after.start.index < s.len(),
        w.contains(before.start.index as int),
        w.contains(after.start.index as int),
    ensures
        keeps_apart(s, enforce_before_spec(s, before, after), before, after, w),
{
    let bi = before.start.index as int;
    let ai = after.start.index as int;
    assert forall|sigma: Seq<int>| assignment_on(s, sigma, w) && #[trigger] apart(sigma, before, after) implies assignment_on(
        enforce_before_spec(s, before, after),
        sigma,
        w,
    ) by {
        assert(s[bi].contains(sigma[bi]));
        assert(s[ai].contains(sigma[ai]));
        lemma_member_in_bounds(s[bi], sigma[bi]);
        lemma_member_in_bounds(s[ai], sigma[ai]);
        assert(in_i32_range(s[ai]) && in_i32_range(s[bi]));
        if clamp_i32_spec(least(start_dom(s, before)) + before.duration) > greatest(start_dom(s, after)) {
            assert(sigma[ai] + after.duration <= sigma[bi]);
            lemma_force_keeps(s, after, before, w, sigma);
        }
    }
}

/// Removing from `other` the starts that overlap a fixed `fixed` keeps every assignment
/// under which the two do not overlap.
proof fn lemma_forbid_keeps(s: Seq<Set<int>>, fixed: DisjunctiveTask, other: DisjunctiveTask, w: Set<int>)
    requires
        domains_ok(s),
        fixed.start.index < s.len(),
        other.start.index < s.len(),
        w.contains(fixed.start.index as int),
        w.contains(other.start.index as int),
    ensures
        keeps_apart(s, forbid_overlap_spec(s, fixed, other), fixed, other, w),
{
    let fi = fixed.start.index as int;
    let oi = other.start.index as int;
    assert forall|sigma: Seq<int>| assignment_on(s, sigma, w) && #[trigger] apart(sigma, fixed, other) implies assignment_on(
        forbid_overlap_spec(s, fixed, other),
        sigma,
        w,
    ) by {
        if is_fixed(start_dom(s, fixed)) {
            let v = choose|v: int| start_dom(s, fixed) == set![v];
            assert(set![v].contains(v));
            assert(s[fi].contains(sigma[fi]));
            lemma_least_is(set![v], v);
            assert(sigma[fi] == v);
            assert(s[oi].contains(sigma[oi]));
            assert(in_i32_range(s[oi]) && in_i32_range(s[fi]));
            let hit = overlap_values(v, fixed, other);
            assert(!hit(sigma[oi]));
            let f = forbid_overlap_spec(s, fixed, other);
            assert forall|i: int| 0 <= i < f.len() && w.contains(i) implies #[trigger] f[i].contains(sigma[i]) by {
                assert(s[i].contains(sigma[i]));
            }
        }
    }
}

/// Two fixed overlapping tasks overlap under every assignment of their domains.
proof fn lemma_fixed_overlap_not_apart(s: Seq<Set<int>>, l: DisjunctiveTask, r: DisjunctiveTask, w: Set<int>, sigma: Seq<int>)
    requires
        domains_ok(s),
        l.start.index < s.len(),
        r.start.index < s.len(),
        w.contains(l.start.index as int),
        w.contains(r.start.index as int),
        assignment_on(s, sigma, w),
        fixed_overlap(s, l, r),
    ensures
        !apart(sigma, l, r),
{
    let li = l.start.index as int;
    let ri = r.start.index as int;
    let x = choose|v: int| start_dom(s, l) == set![v];
    let y = choose|v: int| start_dom(s, r) == set![v];
    assert(set![x].contains(x));
    assert(set![y].contains(y));
    lemma_least_is(set![x], x);
    lemma_least_is(set![y], y);
    assert(s[li].contains(sigma[li]));
    assert(s[ri].contains(sigma[ri]));
    assert(sigma[li] == x && sigma[ri] == y);
    assert(in_i32_range(s[li]) && in_i32_range(s[ri]));
}

/// A task's start variable is one of the start variables.
proof fn lemma_task_start_in(tasks: Seq<DisjunctiveTask>, i: int)
    requires
        0 <= i < tasks.len(),
    ensures
        task_starts(tasks).contains(tasks[i].start.index as int),
{
    assert(tasks[i].start.index == tasks[i].start.index);
}

/// Under assignments of non-overlapping starts, a narrowing that keeps every such
/// assignment of the pair `(tasks[a], tasks[b])` keeps the solutions of all tasks.
proof fn lemma_keeps_on_step(
    s0: Seq<Set<int>>,
    t: Seq<Set<int>>,
    u: Seq<Set<int>>,
    tasks: Seq<DisjunctiveTask>,
    a: int,
    b: int,
)
    requires
        0 <= a < tasks.len(),
        0 <= b < tasks.len(),
        a != b,
        keeps_on(s0, t, no_overlap(tasks), task_starts(tasks)),
        keeps_apart(t, u, tasks[a], tasks[b], task_starts(tasks)),
    ensures
        keeps_on(s0, u, no_overlap(tasks), task_starts(tasks)),
{
    let c = no_overlap(tasks);
    let w = task_starts(tasks);
    assert forall|sigma: Seq<int>| assignment_on(s0, sigma, w) && #[trigger] c(sigma) implies assignment_on(u, sigma, w) by {
        assert(assignment_on(t, sigma, w));
        if a < b {
            assert(apart(sigma, tasks[a], tasks[b]));
        } else {
            assert(apart(sigma, tasks[b], tasks[a]));
        }
        assert(apart(sigma, tasks[a], tasks[b]));
    }
}

/// Solutions kept by a narrowing that has none had none before it.
proof fn lemma_unsat_back(s0: Seq<Set<int>>, t: Seq<Set<int>>, c: spec_fn(Seq<int>) -> bool, w: Set<int>)
    requires
        keeps_on(s0, t, c, w),
        !has_solution_on(t, c, w),
    ensures
        !has_solution_on(s0, c, w),
{
    if has_solution_on(s0, c, w) {
        let sigma = choose|sigma: Seq<int>| assignment_on(s0, sigma, w) && #[trigger] c(sigma);
        assert(assignment_on(t, sigma, w) && c(sigma));
    }
}

/// Keeping solutions composes.
proof fn lemma_keeps_on_trans(a: Seq<Set<int>>, b: Seq<Set<int>>, d: Seq<Set<int>>, c: spec_fn(Seq<int>) -> bool, w: Set<int>)
    requires
        keeps_on(a, b, c, w),
        keeps_on(b, d, c, w),
    ensures
        keeps_on(a, d, c, w),
{
    assert forall|sigma: Seq<int>| assignment_on(a, sigma, w) && #[trigger] c(sigma) implies assignment_on(d, sigma, w) by {
        assert(assignment_on(b, sigma, w));
    }
}

/// Two fixed overlapping tasks leave no solution.
proof fn lemma_fixed_overlap_unsat(s: Seq<Set<int>>, tasks: Seq<DisjunctiveTask>)
    requires
        domains_ok(s),
        tasks_in_range(tasks, s.len()),
        some_fixed_overlap(s, tasks),
    ensures
        !has_solution_on(s, no_overlap(tasks), task_starts(tasks)),
{
    let c = no_overlap(tasks);
    let w = task_starts(tasks);
    let (i, j) = choose|i: int, j: int| 0 <= i < j < tasks.len() && fixed_overlap(s, #[trigger] tasks[i], #[trigger] tasks[j]);
    if has_solution_on(s, c, w) {
        let sigma = choose|sigma: Seq<int>| assignment_on(s, sigma, w) && #[trigger] c(sigma);
        lemma_task_start_in(tasks, i);
        lemma_task_start_in(tasks, j);
        lemma_fixed_overlap_not_apart(s, tasks[i], tasks[j], w, sigma);
        assert(apart(sigma, tasks[i], tasks[j]));
    }
}

/// An empty start domain leaves no solution.
proof fn lemma_start_empty_unsat(s: Seq<Set<int>>, tasks: Seq<DisjunctiveTask>)
    requires
        tasks_in_range(tasks, s.len()),
        some_start_empty(s, tasks),
    ensures
        !has_solution_on(s, no_overlap(tasks), task_starts(tasks)),
{
    let c = no_overlap(tasks);
    let w = task_starts(tasks);
    let i = choose|i: int| 0 <= i < tasks.len() && start_dom(s, #[trigger] tasks[i]).is_empty();
    if has_solution_on(s, c, w) {
        let sigma = choose|sigma: Seq<int>| assignment_on(s, sigma, w) && #[trigger] c(sigma);
        lemma_task_start_in(tasks, i);
        let k = tasks[i].start.index as int;
        assert(s[k].contains(sigma[k]));
    }
}

/// Least value of `f` over the entries of `ps` (0 for none).
pub open spec fn seq_min(ps: Seq<(int, int)>, f: spec_fn((int, int)) -> int) -> int
    decreases ps.len(),
{
    if ps.len() == 0 {
        0
    } else if ps.len() == 1 {
        f(ps[0])
    } else {
        let m = seq_min(ps.drop_last(), f);
        if f(ps.last()) < m {
            f(ps.last())
        } else {
            m
        }
    }
}

/// Greatest value of `f` over the entries of `ps` (0 for none).
pub open spec fn seq_max(ps: Seq<(int, int)>, f: spec_fn((int, int)) -> int) -> int
    decreases ps.len(),
{
    if ps.len() == 0 {
        0
    } else if ps.len() == 1 {
        f(ps[0])
    } else {
        let m = seq_max(ps.drop_last(), f);
        if f(ps.last()) > m {
            f(ps.last())
        } else {
            m
        }
    }
}

proof fn lemma_seq_min(ps: Seq<(int, int)>, f: spec_fn((int, int)) -> int)
    requires
        ps.len() > 0,
    ensures
        exists|i: int| 0 <= i < ps.len() && f(ps[i]) == seq_min(ps, f),
        forall|i: int| 0 <= i < ps.len() ==> seq_min(ps, f) <= f(#[trigger] ps[i]),
    decreases ps.len(),
{
    if ps.len() > 1 {
        let d = ps.drop_last();
        lemma_seq_min(d, f);
        let k = choose|i: int| 0 <= i < d.len() && f(d[i]) == seq_min(d, f);
        if f(ps.last()) < seq_min(d, f) {
            assert(f(ps[ps.len() - 1]) == seq_min(ps, f));
        } else {
            assert(f(ps[k]) == seq_min(ps, f));
        }
        assert forall|i: int| 0 <= i < ps.len() implies seq_min(ps, f) <= f(#[trigger] ps[i]) by {
            if i < ps.len() - 1 {
                assert(d[i] == ps[i]);
            }
        }
    } else {
        assert(f(ps[0]) == seq_min(ps, f));
    }
}

proof fn lemma_seq_max(ps: Seq<(int, int)>, f: spec_fn((int, int)) -> int)
    requires
        ps.len() > 0,
    ensures
        exists|i: int| 0 <= i < ps.len() && f(ps[i]) == seq_max(ps, f),
        forall|i: int| 0 <= i < ps.len() ==> f(#[trigger] ps[i]) <= seq_max(ps, f),
    decreases ps.len(),
{
    if ps.len() > 1 {
        let d = ps.drop_last();
        lemma_seq_max(d, f);
        let k = choose|i: int| 0 <= i < d.len() && f(d[i]) == seq_max(d, f);
        if f(ps.last()) > seq_max(d, f) {
            assert(f(ps[ps.len() - 1]) == seq_max(ps, f));
        } else {
            assert(f(ps[k]) == seq_max(ps, f));
        }
        assert forall|i: int| 0 <= i < ps.len() implies f(#[trigger] ps[i]) <= seq_max(ps, f) by {
            if i < ps.len() - 1 {
                assert(d[i] == ps[i]);
            }
        }
    } else {
        assert(f(ps[0]) == seq_max(ps, f));
    }
}

/// Sum of the second components.
pub open spec fn pair_sum(ps: Seq<(int, int)>) -> int
    decreases ps.len(),
{
    if ps.len() == 0 {
        0
    } else {
        pair_sum(ps.drop_last()) + ps.last().1
    }
}

proof fn lemma_pair_sum_remove(ps: Seq<(int, int)>, k: int)
    requires
        0 <= k < ps.len(),
    ensures
        pair_sum(ps) == pair_sum(ps.remove(k)) + ps[k].1,
    decreases ps.len(),
{
    if k == ps.len() - 1 {
        assert(ps.remove(k) =~= ps.drop_last());
    } else {
        lemma_pair_sum_remove(ps.drop_last(), k);
        assert(ps.remove(k).drop_last() =~= ps.drop_last().remove(k));
        assert(ps.remove(k).last() == ps.last());
    }
}

/// Runs `(start, duration)` that pairwise do not overlap.
pub open spec fn runs_apart(ps: Seq<(int, int)>) -> bool {
    forall|i: int, j: int|
        0 <= i < j < ps.len() ==> #[trigger] ps[i].0 + ps[i].1 <= #[trigger] ps[j].0 || ps[j].0 + ps[j].1 <= ps[i].0
}

/// Start of a run.
pub open spec fn run_start() -> spec_fn((int, int)) -> int {
    |p: (int, int)| p.0
}

/// End of a run.
pub open spec fn run_end() -> spec_fn((int, int)) -> int {
    |p: (int, int)| p.0 + p.1
}

/// Runs that do not overlap last in all no longer than from the first start to the last
/// end.
proof fn lemma_packing(ps: Seq<(int, int)>)
    requires
        ps.len() > 0,
        runs_apart(ps),
    ensures
        pair_sum(ps) <= seq_max(ps, run_end()) - seq_min(ps, run_start()),
    decreases ps.len(),
{
    let st = run_start();
    let en = run_end();
    lemma_seq_min(ps, st);
    lemma_seq_max(ps, en);
    if ps.len() == 1 {
        assert(pair_sum(ps) == pair_sum(ps.drop_last()) + ps[0].1);
        assert(st(ps[0]) >= seq_min(ps, st));
        assert(en(ps[0]) <= seq_max(ps, en));
    } else {
        lemma_seq_max(ps, st);
        let k = choose|i: int| 0 <= i < ps.len() && st(ps[i]) == seq_max(ps, st);
        let r = ps.remove(k);
        assert forall|i: int, j: int| 0 <= i < j < r.len() implies #[trigger] r[i].0 + r[i].1 <= #[trigger] r[j].0 || r[j].0
            + r[j].1 <= r[i].0 by {
            let oi = if i < k { i } else { i + 1 };
            let oj = if j < k { j } else { j + 1 };
            assert(r[i] == ps[oi] && r[j] == ps[oj]);
            assert(ps[oi].0 + ps[oi].1 <= ps[oj].0 || ps[oj].0 + ps[oj].1 <= ps[oi].0);
        }
        lemma_packing(r);
        lemma_pair_sum_remove(ps, k);
        lemma_seq_min(r, st);
        lemma_seq_max(r, en);
        let a = choose|i: int| 0 <= i < r.len() && st(r[i]) == seq_min(r, st);
        let b = choose|i: int| 0 <= i < r.len() && en(r[i]) == seq_max(r, en);
        let oa = if a < k { a } else { a + 1 };
        let ob = if b < k { b } else { b + 1 };
        assert(r[a] == ps[oa] && r[b] == ps[ob]);
        assert(st(ps[oa]) >= seq_min(ps, st));
        assert(en(ps[ob]) <= seq_max(ps, en));
        assert(en(ps[k]) <= seq_max(ps, en));
        if ps[k].1 > 0 {
            assert(ps[ob].0 <= ps[k].0);
            if ob < k {
                assert(ps[ob].0 + ps[ob].1 <= ps[k].0 || ps[k].0 + ps[k].1 <= ps[ob].0);
            } else {
                assert(ps[k].0 + ps[k].1 <= ps[ob].0 || ps[ob].0 + ps[ob].1 <= ps[k].0);
            }
        }
    }
}

/// The starts and durations of the tasks under `sigma`.
pub open spec fn runs_of(tasks: Seq<DisjunctiveTask>, sigma: Seq<int>) -> Seq<(int, int)> {
    Seq::new(tasks.len(), |i: int| (sigma[tasks[i].start.index as int], tasks[i].duration as int))
}

proof fn lemma_duration_sum_runs(tasks: Seq<DisjunctiveTask>, sigma: Seq<int>)
    ensures
        duration_sum(tasks) == pair_sum(runs_of(tasks, sigma)),
    decreases tasks.len(),
{
    if tasks.len() > 0 {
        lemma_duration_sum_runs(tasks.drop_last(), sigma);
        assert(runs_of(tasks, sigma).drop_last() =~= runs_of(tasks.drop_last(), sigma));
    }
}

/// With every start domain non-empty, the least earliest start is at most each task's
/// earliest start, and the greatest latest completion at least each task's.
proof fn lemma_window_bounds(s: Seq<Set<int>>, tasks: Seq<DisjunctiveTask>)
    requires
        tasks.len() > 0,
        forall|i: int| 0 <= i < tasks.len() ==> !start_dom(s, #[trigger] tasks[i]).is_empty(),
    ensures
        min_est(s, tasks) is Some,
        max_lct(s, tasks) is Some,
        forall|i: int| 0 <= i < tasks.len() ==> min_est(s, tasks).unwrap() <= least(start_dom(s, #[trigger] tasks[i])),
        forall|i: int|
            0 <= i < tasks.len() ==> max_lct(s, tasks).unwrap() >= clamp_i32_spec(
                greatest(start_dom(s, #[trigger] tasks[i])) + tasks[i].duration,
            ),
    decreases tasks.len(),
{
    let d = tasks.drop_last();
    assert(!start_dom(s, tasks[tasks.len() - 1]).is_empty());
    if d.len() > 0 {
        assert forall|i: int| 0 <= i < d.len() implies !start_dom(s, #[trigger] d[i]).is_empty() by {
            assert(d[i] == tasks[i]);
        }
        lemma_window_bounds(s, d);
        assert forall|i: int| 0 <= i < tasks.len() implies min_est(s, tasks).unwrap() <= least(start_dom(s, #[trigger] tasks[i])) by {
            if i < d.len() {
                assert(d[i] == tasks[i]);
            }
        }
        assert forall|i: int|
            0 <= i < tasks.len() implies max_lct(s, tasks).unwrap() >= clamp_i32_spec(
            greatest(start_dom(s, #[trigger] tasks[i])) + tasks[i].duration,
        ) by {
            if i < d.len() {
                assert(d[i] == tasks[i]);
            }
        }
    }
}

/// The energy check cannot misjudge: the durations add up within `i32`, and each task's
/// latest start plus duration stays within `i32`.
pub open spec fn energy_check_fits(s: Seq<Set<int>>, tasks: Seq<DisjunctiveTask>) -> bool {
    &&& duration_sum(tasks) <= i32::MAX
    &&& forall|i: int|
        0 <= i < tasks.len() && !start_dom(s, #[trigger] tasks[i]).is_empty() ==> greatest(start_dom(s, tasks[i]))
            + tasks[i].duration <= i32::MAX
}

/// An energy overload leaves no solution where the energy check fits.
proof fn lemma_energy_overload_unsat(s: Seq<Set<int>>, tasks: Seq<DisjunctiveTask>)
    requires
        domains_ok(s),
        tasks_in_range(tasks, s.len()),
        energy_check_fits(s, tasks),
        energy_overload(s, tasks),
    ensures
        !has_solution_on(s, no_overlap(tasks), task_starts(tasks)),
{
    let c = no_overlap(tasks);
    let w = task_starts(tasks);
    if has_solution_on(s, c, w) {
        let sigma = choose|sigma: Seq<int>| assignment_on(s, sigma, w) && #[trigger] c(sigma);
        let ps = runs_of(tasks, sigma);
        assert forall|i: int| 0 <= i < tasks.len() implies !start_dom(s, #[trigger] tasks[i]).is_empty() by {
            lemma_task_start_in(tasks, i);
            assert(s[tasks[i].start.index as int].contains(sigma[tasks[i].start.index as int]));
        }
        assert(tasks.len() > 0);
        lemma_window_bounds(s, tasks);
        assert forall|i: int, j: int| 0 <= i < j < ps.len() implies #[trigger] ps[i].0 + ps[i].1 <= #[trigger] ps[j].0 || ps[j].0
            + ps[j].1 <= ps[i].0 by {
            assert(apart(sigma, tasks[i], tasks[j]));
        }
        lemma_packing(ps);
        lemma_duration_sum_runs(tasks, sigma);
        lemma_seq_min(ps, run_start());
        lemma_seq_max(ps, run_end());
        let a = choose|i: int| 0 <= i < ps.len() && run_start()(ps[i]) == seq_min(ps, run_start());
        let b = choose|i: int| 0 <= i < ps.len() && run_end()(ps[i]) == seq_max(ps, run_end());
        let lo = min_est(s, tasks).unwrap();
        let hi = max_lct(s, tasks).unwrap();
        lemma_task_start_in(tasks, a);
        lemma_task_start_in(tasks, b);
        let da = start_dom(s, tasks[a]);
        let db = start_dom(s, tasks[b]);
        assert(da.contains(sigma[tasks[a].start.index as int]));
        assert(db.contains(sigma[tasks[b].start.index as int]));
        assert(in_i32_range(da) && da.finite());
        assert(in_i32_range(db) && db.finite());
        lemma_member_in_bounds(da, sigma[tasks[a].start.index as int]);
        lemma_member_in_bounds(db, sigma[tasks[b].start.index as int]);
        assert(lo <= least(da));
        assert(hi >= clamp_i32_spec(greatest(db) + tasks[b].duration));
        assert(ps[a].0 >= lo);
        assert(ps[b].0 + ps[b].1 <= hi);
        assert(duration_sum(tasks) <= hi - lo);
    }
}

/// Propagates that tasks on one machine do not overlap.
pub struct DisjunctivePropagator {
    /// The start variables of the tasks, in order.
    pub watched: Vec<VariableId>,
    /// The tasks.
    pub tasks: Vec<DisjunctiveTask>,
}

/// Whether two tasks of `tasks` are fixed and overlap ([`some_fixed_overlap`]).
fn any_fixed_overlap(store: &DomainStore, tasks: &Vec<DisjunctiveTask>) -> (r: bool)
    requires
        tasks_in_range(tasks@, store@.len()),
    ensures
        r == some_fixed_overlap(store@, tasks@),
{
    let n = tasks.len();
    let mut left: usize = 0;
    while left < n
        invariant
            0 <= left <= n,
            n == tasks@.len(),
            tasks_in_range(tasks@, store@.len()),
            forall|a: int, b: int| 0 <= a < b < n && a < left ==> !fixed_overlap(store@, #[trigger] tasks@[a], #[trigger] tasks@[b]),
        decreases n - left,
    {
        let mut right: usize = left + 1;
        while right < n
            invariant
                left < n,
                left + 1 <= right <= n,
                n == tasks@.len(),
                tasks_in_range(tasks@, store@.len()),
                forall|a: int, b: int|
                    0 <= a < b < n && (a < left || (a == left && b < right)) ==> !fixed_overlap(
                        store@,
                        #[trigger] tasks@[a],
                        #[trigger] tasks@[b],
                    ),
            decreases n - right,
        {
            if fixed_tasks_overlap(store, tasks[left], tasks[right]) {
                proof {
                    assert(fixed_overlap(store@, tasks@[left as int], tasks@[right as int]));
                }
                return true;
            }
            right = right + 1;
        }
        left = left + 1;
    }
    false
}

/// Whether some task's start domain is empty ([`some_start_empty`]).
fn any_start_empty(store: &DomainStore, tasks: &Vec<DisjunctiveTask>) -> (r: bool)
    requires
        tasks_in_range(tasks@, store@.len()),
    ensures
        r == some_start_empty(store@, tasks@),
{
    let mut i: usize = 0;
    while i < tasks.len()
        invariant
            0 <= i <= tasks@.len(),
            tasks_in_range(tasks@, store@.len()),
            forall|k: int| 0 <= k < i ==> !start_dom(store@, #[trigger] tasks@[k]).is_empty(),
        decreases tasks@.len() - i,
    {
        if store.is_empty(tasks[i].start) {
            proof {
                assert(start_dom(store@, tasks@[i as int]).is_empty());
            }
            return true;
        }
        i = i + 1;
    }
    false
}

impl DisjunctivePropagator {
    /// Creates a propagator over `tasks`.
    pub fn new(tasks: Vec<DisjunctiveTask>) -> (p: Self)
        ensures
            p.tasks@ == tasks@,
            p.watched@.len() == tasks@.len(),
            forall|i: int| 0 <= i < tasks@.len() ==> p.watched@[i] == (#[trigger] tasks@[i]).start,
    {
        let mut watched: Vec<VariableId> = Vec::new();
        let mut i: usize = 0;
        while i < tasks.len()
            invariant
                0 <= i <= tasks@.len(),
                watched@.len() == i,
                forall|k: int| 0 <= k < i ==> watched@[k] == (#[trigger] tasks@[k]).start,
            decreases tasks@.len() - i,
        {
            watched.push(tasks[i].start);
            i = i + 1;
        }
        DisjunctivePropagator { watched, tasks }
    }

    /// The variables whose domains this propagator reads.
    pub fn watched_variables(&self) -> (w: &Vec<VariableId>)
        ensures
            w@ == self.watched@,
    {
        &self.watched
    }

    /// Scheduling priority: propagators with a lower number run first.
    pub fn priority(&self) -> (p: u32)
        ensures
            p == 24,
    {
        24
    }

    /// With fewer than two tasks, does nothing. Otherwise fails on two fixed overlapping
    /// tasks or, with more than two tasks, on an energy overload; then repeats rounds of
    /// detectable precedences and pair rules until a round changes nothing, failing as
    /// soon as two fixed tasks overlap, and at the end when a start domain is empty.
    pub fn propagate(&mut self, store: &mut DomainStore) -> (status: PropagationStatus)
        requires
            tasks_in_range(old(self).tasks@, old(store)@.len()),
        ensures
            *final(self) == *old(self),
            narrows(old(store)@, final(store)@),
            old(self).tasks@.len() < 2 ==> final(store)@ == old(store)@ && status == PropagationStatus::OkNoChange,
            old(self).tasks@.len() >= 2 && some_fixed_overlap(old(store)@, old(self).tasks@) ==> final(store)@ == old(store)@
                && status == PropagationStatus::Failure,
            old(self).tasks@.len() > 2 && !some_fixed_overlap(old(store)@, old(self).tasks@) && energy_overload(
                old(store)@,
                old(self).tasks@,
            ) ==> final(store)@ == old(store)@ && status == PropagationStatus::Failure,
            status == PropagationStatus::Failure ==> {
                ||| some_fixed_overlap(old(store)@, old(self).tasks@)
                ||| energy_overload(old(store)@, old(self).tasks@)
                ||| some_fixed_overlap(final(store)@, old(self).tasks@)
                ||| some_start_empty(final(store)@, old(self).tasks@)
            },
            old(self).tasks@.len() >= 2 && status != PropagationStatus::Failure ==> {
                &&& !some_start_empty(final(store)@, old(self).tasks@)
                &&& (status == PropagationStatus::OkChanged) == (final(store)@ != old(store)@)
                &&& pairs_settled(final(store)@, old(self).tasks@, old(self).tasks@.len() as int, 0)
                &&& edge_finding_result(final(store)@, old(self).tasks@) == final(store)@
            },
            old(self).tasks@.len() >= 2 && status != PropagationStatus::Failure ==> detected_precedences_hold(
                final(store)@,
                old(self).tasks@,
            ),
            old(self).tasks@.len() >= 2 && status != PropagationStatus::Failure ==> fixed_tasks_cleared(
                final(store)@,
                old(self).tasks@,
            ),
            keeps_on(old(store)@, final(store)@, no_overlap(old(self).tasks@), task_starts(old(self).tasks@)),
            status == PropagationStatus::Failure && (old(self).tasks@.len() > 2 ==> energy_check_fits(
                old(store)@,
                old(self).tasks@,
            )) ==> !has_solution_on(old(store)@, no_overlap(old(self).tasks@), task_starts(old(self).tasks@)),
    {
        let status = self.propagate_rounds(store);
        proof {
            if self.tasks@.len() >= 2 && status != PropagationStatus::Failure {
                law_settled_pairs_hold_precedences(store@, self.tasks@);
                law_settled_pairs_clear_fixed(store@, self.tasks@);
            }
        }
        status
    }

    /// [`DisjunctivePropagator::propagate`] without the precedences read off its settled pairs.
    fn propagate_rounds(&mut self, store: &mut DomainStore) -> (status: PropagationStatus)
        requires
            tasks_in_range(old(self).tasks@, old(store)@.len()),
        ensures
            *final(self) == *old(self),
            narrows(old(store)@, final(store)@),
            old(self).tasks@.len() < 2 ==> final(store)@ == old(store)@ && status == PropagationStatus::OkNoChange,
            old(self).tasks@.len() >= 2 && some_fixed_overlap(old(store)@, old(self).tasks@) ==> final(store)@ == old(store)@
                && status == PropagationStatus::Failure,
            old(self).tasks@.len() > 2 && !some_fixed_overlap(old(store)@, old(self).tasks@) && energy_overload(
                old(store)@,
                old(self).tasks@,
            ) ==> final(store)@ == old(store)@ && status == PropagationStatus::Failure,
            status == PropagationStatus::Failure ==> {
                ||| some_fixed_overlap(old(store)@, old(self).tasks@)
                ||| energy_overload(old(store)@, old(self).tasks@)
                ||| some_fixed_overlap(final(store)@, old(self).tasks@)
                ||| some_start_empty(final(store)@, old(self).tasks@)
            },
            old(self).tasks@.len() >= 2 && status != PropagationStatus::Failure ==> {
                &&& !some_start_empty(final(store)@, old(self).tasks@)
                &&& (status == PropagationStatus::OkChanged) == (final(store)@ != old(store)@)
                &&& pairs_settled(final(store)@, old(self).tasks@, old(self).tasks@.len() as int, 0)
                &&& edge_finding_result(final(store)@, old(self).tasks@) == final(store)@
            },
            keeps_on(old(store)@, final(store)@, no_overlap(old(self).tasks@), task_starts(old(self).tasks@)),
            status == PropagationStatus::Failure && (old(self).tasks@.len() > 2 ==> energy_check_fits(
                old(store)@,
                old(self).tasks@,
            )) ==> !has_solution_on(old(store)@, no_overlap(old(self).tasks@), task_starts(old(self).tasks@)),
    {
        let ghost s0 = store@;
        let ghost tasks = self.tasks@;
        let ghost cons = no_overlap(tasks);
        let ghost w = task_starts(tasks);
        store.assert_in_range();
        let n = self.tasks.len();
        proof {
            assert(narrows(s0, s0));
        }
        if n < 2 {
            return PropagationStatus::OkNoChange;
        }
        if any_fixed_overlap(store, &self.tasks) {
            proof {
                lemma_fixed_overlap_unsat(s0, tasks);
            }
            return PropagationStatus::Failure;
        }
        if n > 2 && disjunctive_energy_overload(store, &self.tasks) {
            proof {
                if energy_check_fits(s0, tasks) {
                    lemma_energy_overload_unsat(s0, tasks);
                }
            }
            return PropagationStatus::Failure;
        }
        let mut changed = false;
        loop
            invariant_except_break
                n == tasks.len(),
                n >= 2,
                tasks == self.tasks@,
                store@.len() == s0.len(),
                tasks_in_range(tasks, s0.len()),
                narrows(s0, store@),
                changed == (store@ != s0),
                !some_fixed_overlap(s0, tasks),
                s0 == old(store)@,
                tasks == old(self).tasks@,
                *self == *old(self),
                n > 2 ==> !energy_overload(s0, tasks),
                cons == no_overlap(tasks),
                w == task_starts(tasks),
                keeps_on(s0, store@, cons, w),
            ensures
                keeps_on(s0, store@, cons, w),
                narrows(s0, store@),
                changed == (store@ != s0),
                pairs_settled(store@, tasks, n as int, 0),
                edge_finding_result(store@, tasks) == store@,
            decreases total_size(store@),
        {
            store.assert_in_range();
            let ghost start = store@;
            let mut round_changed = propagate_edge_finding(store, &self.tasks);
            proof {
                lemma_narrows_compose(s0, start, store@);
                lemma_keeps_on_trans(s0, start, store@, cons, w);
            }
            let mut left: usize = 0;
            while left < n
                invariant
                    0 <= left <= n,
                    n == tasks.len(),
                    tasks == self.tasks@,
                    store@.len() == s0.len(),
                    tasks_in_range(tasks, s0.len()),
                    narrows(s0, start),
                    narrows(start, store@),
                    narrows(s0, store@),
                    !some_fixed_overlap(s0, tasks),
                s0 == old(store)@,
                tasks == old(self).tasks@,
                *self == *old(self),
                    n > 2 ==> !energy_overload(s0, tasks),
                    round_changed == (store@ != start),
                    !round_changed ==> edge_finding_result(start, tasks) == start,
                    !round_changed ==> pairs_settled(store@, tasks, left as int, 0),
                    cons == no_overlap(tasks),
                    w == task_starts(tasks),
                    keeps_on(s0, store@, cons, w),
                decreases n - left,
            {
                let mut right: usize = left + 1;
                while right < n
                    invariant
                        left < n,
                        left + 1 <= right <= n,
                        n == tasks.len(),
                        tasks == self.tasks@,
                        store@.len() == s0.len(),
                        tasks_in_range(tasks, s0.len()),
                        narrows(s0, start),
                        narrows(start, store@),
                        narrows(s0, store@),
                        !some_fixed_overlap(s0, tasks),
                s0 == old(store)@,
                tasks == old(self).tasks@,
                *self == *old(self),
                        n > 2 ==> !energy_overload(s0, tasks),
                        round_changed == (store@ != start),
                        !round_changed ==> edge_finding_result(start, tasks) == start,
                        !round_changed ==> pairs_settled(store@, tasks, left as int, right as int),
                        cons == no_overlap(tasks),
                        w == task_starts(tasks),
                        keeps_on(s0, store@, cons, w),
                    decreases n - right,
                {
                    proof {
                        assert(tasks[left as int].start.index < s0.len());
                        assert(tasks[right as int].start.index < s0.len());
                    }
                    store.assert_in_range();
                    if fixed_tasks_overlap(store, self.tasks[left], self.tasks[right]) {
                        proof {
                            lemma_narrows_compose(s0, start, store@);
                            assert(fixed_overlap(store@, tasks[left as int], tasks[right as int]));
                            lemma_fixed_overlap_unsat(store@, tasks);
                            lemma_unsat_back(s0, store@, cons, w);
                        }
                        return PropagationStatus::Failure;
                    }
                    let ghost t = store@;
                    let step = propagate_pair(store, self.tasks[left], self.tasks[right]);
                    proof {
                        lemma_task_start_in(tasks, left as int);
                        lemma_task_start_in(tasks, right as int);
                        assert(keeps_apart(t, store@, tasks[left as int], tasks[right as int], w));
                        lemma_keeps_on_step(s0, t, store@, tasks, left as int, right as int);
                        lemma_narrow_step(start, t, store@, round_changed, step);
                        lemma_narrows_compose(s0, t, store@);
                        if !(round_changed || step) {
                            assert(store@ == t);
                            assert forall|a: int, b: int|
                                0 <= a < b < tasks.len() && (a < left || (a == left && b < right + 1)) implies {
                                &&& pair_rules(store@, #[trigger] tasks[a], #[trigger] tasks[b]) == store@
                                &&& !fixed_overlap(store@, tasks[a], tasks[b])
                            } by {
                                if a == left && b == right {
                                    assert(tasks[a] == self.tasks@[left as int]);
                                    assert(tasks[b] == self.tasks@[right as int]);
                                }
                            }
                        }
                    }
                    round_changed = round_changed || step;
                    right = right + 1;
                }
                left = left + 1;
            }
            proof {
                lemma_narrow_step(s0, start, store@, changed, round_changed);
            }
            changed = changed || round_changed;
            if !round_changed {
                break;
            }
            proof {
                lemma_total_size_narrows(start, store@);
            }
        }
        if any_start_empty(store, &self.tasks) {
            proof {
                lemma_start_empty_unsat(store@, tasks);
                lemma_unsat_back(s0, store@, cons, w);
            }
            PropagationStatus::Failure
        } else if changed {
            PropagationStatus::OkChanged
        } else {
            PropagationStatus::OkNoChange
        }
    }
}

/// Narrowing composes.
proof fn lemma_narrows_compose(a: Seq<Set<int>>, b: Seq<Set<int>>, c: Seq<Set<int>>)
    requires
        narrows(a, b),
        narrows(b, c),
    ensures
        narrows(a, c),
{
    crate::domain::lemma_narrows_trans(a, b, c);
}


/// Every start value of `t` in `s` is at least `bound`.
pub open spec fn starts_from(s: Seq<Set<int>>, t: DisjunctiveTask, bound: int) -> bool {
    forall|v: int| #[trigger] start_dom(s, t).contains(v) ==> bound <= v
}

/// Every start value of `t` in `s` is at most `bound`.
pub open spec fn starts_until(s: Seq<Set<int>>, t: DisjunctiveTask, bound: int) -> bool {
    forall|v: int| #[trigger] start_dom(s, t).contains(v) ==> v <= bound
}

/// For every two tasks `a` and `b` of `tasks` with non-empty start domains in `s`: when
/// `a` cannot end (earliest start plus duration) by the latest start of `b`, `b` runs
/// first, so `a` starts no earlier than the earliest end of `b` and `b` no later than
/// the latest start of `a` minus the duration of `b` (sums saturating into `i32`).
pub open spec fn detected_precedences_hold(s: Seq<Set<int>>, tasks: Seq<DisjunctiveTask>) -> bool {
    forall|a: int, b: int|
        0 <= a < tasks.len() && 0 <= b < tasks.len() && a != b && !start_dom(s, #[trigger] tasks[a]).is_empty()
            && !start_dom(s, #[trigger] tasks[b]).is_empty() && clamp_i32_spec(least(start_dom(s, tasks[a])) + tasks[a].duration)
            > greatest(start_dom(s, tasks[b])) ==> {
            &&& starts_from(s, tasks[a], clamp_i32_spec(least(start_dom(s, tasks[b])) + tasks[b].duration))
            &&& starts_until(s, tasks[b], clamp_i32_spec(greatest(start_dom(s, tasks[a])) - tasks[b].duration))
        }
}

/// A store left alone by the pair rules of `l` and `r` is left alone by the precedence
/// detection in both directions.
proof fn lemma_pair_rules_fixed(s: Seq<Set<int>>, l: DisjunctiveTask, r: DisjunctiveTask)
    requires
        l.start.index < s.len(),
        r.start.index < s.len(),
        pair_rules(s, l, r) == s,
    ensures
        enforce_before_spec(s, l, r) == s,
        enforce_before_spec(s, r, l) == s,
        forbid_overlap_spec(s, l, r) == s,
        forbid_overlap_spec(s, r, l) == s,
{
    let p1 = enforce_before_spec(s, l, r);
    let p2 = enforce_before_spec(p1, r, l);
    let p3 = forbid_overlap_spec(p2, l, r);
    let p4 = forbid_overlap_spec(p3, r, l);
    assert(p4 == s);
    assert(p1.len() == s.len() && p2.len() == s.len() && p3.len() == s.len());
    assert forall|k: int| 0 <= k < s.len() implies p1[k] == s[k] && p2[k] == s[k] && p3[k] == s[k] by {
        assert(p4[k].subset_of(p3[k]));
        assert(p3[k].subset_of(p2[k]));
        assert(p2[k].subset_of(p1[k]));
        assert(p1[k].subset_of(s[k]));
        assert(p1[k] =~= s[k]);
        assert(p2[k] =~= s[k]);
        assert(p3[k] =~= s[k]);
    }
    assert(p1 =~= s);
    assert(p2 =~= s);
    assert(p3 =~= s);
}

/// Every start value of `other` in `s` keeps its run apart from the run of `fixed`
/// starting at `fs`: it starts no earlier than that run ends, or ends no later than
/// that run starts (ends saturating into `i32`).
pub open spec fn starts_clear_of(s: Seq<Set<int>>, other: DisjunctiveTask, fixed: DisjunctiveTask, fs: int) -> bool {
    forall|v: int| #[trigger] start_dom(s, other).contains(v) ==> clamp_i32_spec(fs + fixed.duration) <= v || clamp_i32_spec(
        v + other.duration,
    ) <= fs
}

/// For every two tasks of `tasks`, when the first is fixed in `s`, no start left to the
/// second overlaps its run.
pub open spec fn fixed_tasks_cleared(s: Seq<Set<int>>, tasks: Seq<DisjunctiveTask>) -> bool {
    forall|a: int, b: int|
        0 <= a < tasks.len() && 0 <= b < tasks.len() && a != b && is_fixed(start_dom(s, #[trigger] tasks[a])) ==> starts_clear_of(
            s,
            #[trigger] tasks[b],
            tasks[a],
            least(start_dom(s, tasks[a])),
        )
}

/// Where every pair of tasks is settled under the pair rules, no task's start overlaps
/// the run of a fixed task.
pub proof fn law_settled_pairs_clear_fixed(s: Seq<Set<int>>, tasks: Seq<DisjunctiveTask>)
    requires
        tasks_in_range(tasks, s.len()),
        pairs_settled(s, tasks, tasks.len() as int, 0),
    ensures
        fixed_tasks_cleared(s, tasks),
{
    assert forall|a: int, b: int|
        0 <= a < tasks.len() && 0 <= b < tasks.len() && a != b && is_fixed(start_dom(s, #[trigger] tasks[a])) implies starts_clear_of(
            s,
            #[trigger] tasks[b],
            tasks[a],
            least(start_dom(s, tasks[a])),
        ) by {
        assert(tasks[a].start.index < s.len() && tasks[b].start.index < s.len());
        if a < b {
            assert(pair_rules(s, tasks[a], tasks[b]) == s);
            lemma_pair_rules_fixed(s, tasks[a], tasks[b]);
        } else {
            assert(pair_rules(s, tasks[b], tasks[a]) == s);
            lemma_pair_rules_fixed(s, tasks[b], tasks[a]);
        }
        let f = forbid_overlap_spec(s, tasks[a], tasks[b]);
        assert(f == s);
        let fs = least(start_dom(s, tasks[a]));
        assert forall|v: int| #[trigger] start_dom(s, tasks[b]).contains(v) implies clamp_i32_spec(fs + tasks[a].duration) <= v
            || clamp_i32_spec(v + tasks[b].duration) <= fs by {
            assert(f[tasks[b].start.index as int].contains(v));
        }
    }
}

/// A store left alone by the precedence detection of `a` before `b` satisfies the
/// detected precedence of `b` before `a`.
proof fn lemma_enforce_fixed(s: Seq<Set<int>>, a: DisjunctiveTask, b: DisjunctiveTask)
    requires
        a.start.index < s.len(),
        b.start.index < s.len(),
        enforce_before_spec(s, a, b) == s,
        !start_dom(s, a).is_empty(),
        !start_dom(s, b).is_empty(),
        clamp_i32_spec(least(start_dom(s, a)) + a.duration) > greatest(start_dom(s, b)),
    ensures
        starts_from(s, a, clamp_i32_spec(least(start_dom(s, b)) + b.duration)),
        starts_until(s, b, clamp_i32_spec(greatest(start_dom(s, a)) - b.duration)),
{
    let f = force_before_spec(s, b, a);
    assert(f == s);
    let lo = clamp_i32_spec(least(start_dom(s, b)) + b.duration);
    let hi = clamp_i32_spec(greatest(start_dom(s, a)) - b.duration);
    let t = cut_below(s, a.start.index as int, lo);
    assert(f == t.update(b.start.index as int, at_most(t[b.start.index as int], hi)));
    assert forall|v: int| #[trigger] start_dom(s, a).contains(v) implies lo <= v by {
        assert(f[a.start.index as int].contains(v));
        assert(t[a.start.index as int].contains(v));
    }
    assert forall|v: int| #[trigger] start_dom(s, b).contains(v) implies v <= hi by {
        assert(f[b.start.index as int].contains(v));
    }
}

/// Where every pair of tasks is settled under the pair rules, each precedence that the
/// bounds of two tasks force holds: the later task starts after the earlier one's
/// earliest end, and the earlier one starts early enough to end before the later
/// task's latest start.
pub proof fn law_settled_pairs_hold_precedences(s: Seq<Set<int>>, tasks: Seq<DisjunctiveTask>)
    requires
        tasks_in_range(tasks, s.len()),
        pairs_settled(s, tasks, tasks.len() as int, 0),
    ensures
        detected_precedences_hold(s, tasks),
{
    assert forall|a: int, b: int|
        0 <= a < tasks.len() && 0 <= b < tasks.len() && a != b && !start_dom(s, #[trigger] tasks[a]).is_empty()
            && !start_dom(s, #[trigger] tasks[b]).is_empty() && clamp_i32_spec(least(start_dom(s, tasks[a])) + tasks[a].duration)
            > greatest(start_dom(s, tasks[b])) implies {
            &&& starts_from(s, tasks[a], clamp_i32_spec(least(start_dom(s, tasks[b])) + tasks[b].duration))
            &&& starts_until(s, tasks[b], clamp_i32_spec(greatest(start_dom(s, tasks[a])) - tasks[b].duration))
        } by {
        assert(tasks[a].start.index < s.len() && tasks[b].start.index < s.len());
        if a < b {
            assert(pair_rules(s, tasks[a], tasks[b]) == s);
            lemma_pair_rules_fixed(s, tasks[a], tasks[b]);
        } else {
            assert(pair_rules(s, tasks[b], tasks[a]) == s);
            lemma_pair_rules_fixed(s, tasks[b], tasks[a]);
        }
        lemma_enforce_fixed(s, tasks[a], tasks[b]);
    }
}

} // verus!
