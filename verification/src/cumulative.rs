//! Propagation for the cumulative resource constraint: tasks with a demand share a
//! resource of limited capacity over time.
use crate::arith::{clamp_i32, clamp_i32_spec};
use crate::domain::{
    at_least, at_most, greatest, in_i32_range, is_greatest, is_least, least, lemma_greatest_is, lemma_least_is,
    lemma_narrow_step, lemma_total_size_narrows, narrows, seq_has, total_size, DomainStore, PropagationStatus, VariableId,
};
use crate::disjunctive::domains_ok;
use crate::int_mod::is_fixed;
use crate::solutions::{assignment_in, has_solution, keeps};
use crate::disjunctive::{lemma_stable_insert_at, stable_insert, stable_sort_by};
use crate::scheduling::{
    build_time_table, edge_finding_new_est, edge_finding_new_lct, residual_energy, ceil_div_pos, EdgeFindingTask, ect, est, find_excess_time, find_overload_time, interval_horizon, justified_literal, lct, load,
    mandatory_interval, mandatory_literals_at_time, MandatoryContribution, MandatoryInterval, TaskSpec, TimePoint,
    covers,
};
use vstd::prelude::*;

verus! {

/// Every variable of `t` names a domain of a store of `n` domains.
pub open spec fn task_in_range(t: TaskSpec, n: nat) -> bool {
    &&& t.start.index < n
    &&& t.end.index < n
    &&& (t.duration_var matches Some(v) ==> v.index < n)
    &&& (t.demand_var matches Some(v) ==> v.index < n)
}

/// Every task of `tasks` has its variables in a store of `n` domains.
pub open spec fn tasks_in_range(tasks: Seq<TaskSpec>, n: nat) -> bool {
    forall|i: int| 0 <= i < tasks.len() ==> task_in_range(#[trigger] tasks[i], n)
}

/// The duration of `t` read on `s`: the least value of its duration variable, or the
/// fixed duration where it has none or its domain is empty.
pub open spec fn duration_min_spec(s: Seq<Set<int>>, t: TaskSpec) -> int {
    match t.duration_var {
        Some(v) => if s[v.index as int].is_empty() {
            t.duration as int
        } else {
            least(s[v.index as int])
        },
        None => t.duration as int,
    }
}

/// The demand of `t` read on `s`, in the same way as [`duration_min_spec`].
pub open spec fn demand_min_spec(s: Seq<Set<int>>, t: TaskSpec) -> int {
    match t.demand_var {
        Some(v) => if s[v.index as int].is_empty() {
            t.demand as int
        } else {
            least(s[v.index as int])
        },
        None => t.demand as int,
    }
}

/// The variables of one task, in the order start, end, duration, demand.
pub open spec fn task_watch(t: TaskSpec) -> Seq<VariableId> {
    let base = seq![t.start, t.end];
    let with_duration = match t.duration_var {
        Some(v) => base.push(v),
        None => base,
    };
    match t.demand_var {
        Some(v) => with_duration.push(v),
        None => with_duration,
    }
}

/// The variables of all tasks in order, then the capacity variable if any.
pub open spec fn tasks_watch(tasks: Seq<TaskSpec>) -> Seq<VariableId>
    decreases tasks.len(),
{
    if tasks.len() == 0 {
        Seq::empty()
    } else {
        tasks_watch(tasks.drop_last()) + task_watch(tasks.last())
    }
}

/// The watched variables of a cumulative constraint.
pub open spec fn watch_spec(tasks: Seq<TaskSpec>, capacity_var: Option<VariableId>) -> Seq<VariableId> {
    match capacity_var {
        Some(c) => tasks_watch(tasks).push(c),
        None => tasks_watch(tasks),
    }
}

/// Lists the variables of the tasks and of the capacity ([`watch_spec`]).
fn watch_list(tasks: &Vec<TaskSpec>, capacity_var: Option<VariableId>) -> (watched: Vec<VariableId>)
    ensures
        watched@ == watch_spec(tasks@, capacity_var),
{
    let mut watched: Vec<VariableId> = Vec::new();
    let mut i: usize = 0;
    while i < tasks.len()
        invariant
            0 <= i <= tasks@.len(),
            watched@ == tasks_watch(tasks@.take(i as int)),
        decreases tasks@.len() - i,
    {
        let task = tasks[i];
        proof {
            assert(tasks@.take(i + 1).drop_last() =~= tasks@.take(i as int));
            assert(tasks@.take(i + 1).last() == task);
        }
        let ghost before = watched@;
        watched.push(task.start);
        watched.push(task.end);
        match task.duration_var {
            Some(d) => {
                watched.push(d);
            },
            None => {},
        }
        match task.demand_var {
            Some(d) => {
                watched.push(d);
            },
            None => {},
        }
        proof {
            assert(watched@ =~= before + task_watch(task));
        }
        i = i + 1;
    }
    proof {
        assert(tasks@.take(tasks@.len() as int) =~= tasks@);
    }
    match capacity_var {
        Some(c) => {
            watched.push(c);
        },
        None => {},
    }
    watched
}

/// Least duration of `task` ([`duration_min_spec`]).
fn duration_min(store: &DomainStore, task: TaskSpec) -> (r: i32)
    requires
        task_in_range(task, store@.len()),
    ensures
        r == duration_min_spec(store@, task),
{
    match task.duration_var {
        Some(v) => match store.min(v) {
            Some(m) => {
                proof {
                    lemma_least_is(store@[v.index as int], m as int);
                }
                m
            },
            None => task.duration,
        },
        None => task.duration,
    }
}

/// Least demand of `task` ([`demand_min_spec`]).
fn demand_min(store: &DomainStore, task: TaskSpec) -> (r: i32)
    requires
        task_in_range(task, store@.len()),
    ensures
        r == demand_min_spec(store@, task),
{
    match task.demand_var {
        Some(v) => match store.min(v) {
            Some(m) => {
                proof {
                    lemma_least_is(store@[v.index as int], m as int);
                }
                m
            },
            None => task.demand,
        },
        None => task.demand,
    }
}

/// `s` with `k` cut to the values at least `lo`.
pub open spec fn cut_lo(s: Seq<Set<int>>, k: int, lo: int) -> Seq<Set<int>> {
    s.update(k, at_least(s[k], lo))
}

/// `s` with `k` cut to the values at most `hi`.
pub open spec fn cut_hi(s: Seq<Set<int>>, k: int, hi: int) -> Seq<Set<int>> {
    s.update(k, at_most(s[k], hi))
}

/// `s` with `k` cut to the values at least and at most `v`.
pub open spec fn cut_to(s: Seq<Set<int>>, k: int, v: int) -> Seq<Set<int>> {
    cut_hi(cut_lo(s, k, v), k, v)
}

/// The bounds rule of one task: its end is at least its earliest start plus its
/// duration, and its start at most its latest end minus its duration (both read before
/// either cut), each saturating into `i32`.
pub open spec fn bounds_step(s: Seq<Set<int>>, t: TaskSpec, d: int) -> Seq<Set<int>> {
    let si = t.start.index as int;
    let ei = t.end.index as int;
    if !s[si].is_empty() && !s[ei].is_empty() {
        cut_hi(cut_lo(s, ei, clamp_i32_spec(least(s[si]) + d)), si, clamp_i32_spec(greatest(s[ei]) - d))
    } else {
        s
    }
}

/// A fixed start fixes the end to start plus duration.
pub open spec fn fixed_start_step(s: Seq<Set<int>>, t: TaskSpec, d: int) -> Seq<Set<int>> {
    let si = t.start.index as int;
    if is_fixed(s[si]) {
        cut_to(s, t.end.index as int, clamp_i32_spec(least(s[si]) + d))
    } else {
        s
    }
}

/// A fixed end fixes the start to end minus duration.
pub open spec fn fixed_end_step(s: Seq<Set<int>>, t: TaskSpec, d: int) -> Seq<Set<int>> {
    let ei = t.end.index as int;
    if is_fixed(s[ei]) {
        cut_to(s, t.start.index as int, clamp_i32_spec(least(s[ei]) - d))
    } else {
        s
    }
}

/// The precedence rules of one task, with its duration read on `s` before the rules.
pub open spec fn precedence_step(s: Seq<Set<int>>, t: TaskSpec) -> Seq<Set<int>> {
    let d = duration_min_spec(s, t);
    fixed_end_step(fixed_start_step(bounds_step(s, t, d), t, d), t, d)
}

/// Store after the precedence rules of each task in turn.
pub open spec fn precedence_result(s: Seq<Set<int>>, tasks: Seq<TaskSpec>) -> Seq<Set<int>>
    decreases tasks.len(),
{
    if tasks.len() == 0 {
        s
    } else {
        precedence_step(precedence_result(s, tasks.drop_last()), tasks.last())
    }
}

/// The value of a fixed domain, with its spec reading.
fn fixed_of(store: &DomainStore, var: VariableId) -> (r: Option<i32>)
    requires
        var.index < store@.len(),
    ensures
        r matches Some(v) ==> is_fixed(store@[var.index as int]) && least(store@[var.index as int]) == v,
        r is None ==> !is_fixed(store@[var.index as int]),
{
    let r = store.fixed_value(var);
    proof {
        match r {
            Some(v) => {
                assert(set![v as int].contains(v as int));
                lemma_least_is(set![v as int], v as int);
            },
            None => {},
        }
    }
    r
}

/// Cuts `var` to the single value `value`; returns whether a domain changed.
fn tighten_to_point(store: &mut DomainStore, var: VariableId, value: i32) -> (changed: bool)
    requires
        var.index < old(store)@.len(),
    ensures
        final(store)@ == cut_to(old(store)@, var.index as int, value as int),
        narrows(old(store)@, final(store)@),
        changed == (final(store)@ != old(store)@),
{
    let ghost s0 = store@;
    let c1 = store.remove_below(var, value);
    let ghost t = store@;
    let c2 = store.remove_above(var, value);
    proof {
        lemma_narrow_step(s0, t, store@, c1, c2);
    }
    c1 || c2
}

/// Applies the precedence rules of one task ([`precedence_step`]).
fn precedence_one(store: &mut DomainStore, task: TaskSpec) -> (changed: bool)
    requires
        task_in_range(task, old(store)@.len()),
    ensures
        final(store)@ == precedence_step(old(store)@, task),
        narrows(old(store)@, final(store)@),
        changed == (final(store)@ != old(store)@),
{
    let ghost s0 = store@;
    proof {
        assert(narrows(s0, s0));
    }
    let duration = duration_min(store, task);
    let mut changed = false;
    match (store.min(task.start), store.max(task.end)) {
        (Some(start_min), Some(end_max)) => {
            proof {
                lemma_least_is(s0[task.start.index as int], start_min as int);
                lemma_greatest_is(s0[task.end.index as int], end_max as int);
            }
            let min_end = clamp_i32(start_min as i64 + duration as i64);
            let c1 = store.remove_below(task.end, min_end);
            let ghost t1 = store@;
            let max_start = clamp_i32(end_max as i64 - duration as i64);
            let c2 = store.remove_above(task.start, max_start);
            proof {
                lemma_narrow_step(s0, t1, store@, c1, c2);
            }
            changed = c1 || c2;
        },
        _ => {},
    }
    let ghost s1 = store@;
    proof {
        assert(s1 == bounds_step(s0, task, duration as int));
    }
    match fixed_of(store, task.start) {
        Some(start) => {
            let end = clamp_i32(start as i64 + duration as i64);
            let c = tighten_to_point(store, task.end, end);
            proof {
                lemma_narrow_step(s0, s1, store@, changed, c);
            }
            changed = changed || c;
        },
        None => {},
    }
    let ghost s2 = store@;
    proof {
        assert(s2 == fixed_start_step(s1, task, duration as int));
    }
    match fixed_of(store, task.end) {
        Some(end) => {
            let start = clamp_i32(end as i64 - duration as i64);
            let c = tighten_to_point(store, task.start, start);
            proof {
                lemma_narrow_step(s0, s2, store@, changed, c);
            }
            changed = changed || c;
        },
        None => {},
    }
    changed
}

/// Applies the precedence rules of each task in turn ([`precedence_result`]); returns
/// whether a domain changed.
pub fn propagate_precedence(store: &mut DomainStore, tasks: &Vec<TaskSpec>) -> (changed: bool)
    requires
        tasks_in_range(tasks@, old(store)@.len()),
    ensures
        final(store)@ == precedence_result(old(store)@, tasks@),
        narrows(old(store)@, final(store)@),
        changed == (final(store)@ != old(store)@),
{
    let ghost s0 = store@;
    proof {
        assert(narrows(s0, s0));
        assert(tasks@.take(0) =~= Seq::<TaskSpec>::empty());
    }
    let mut changed = false;
    let mut i: usize = 0;
    while i < tasks.len()
        invariant
            0 <= i <= tasks@.len(),
            tasks_in_range(tasks@, s0.len()),
            store@.len() == s0.len(),
            narrows(s0, store@),
            changed == (store@ != s0),
            store@ == precedence_result(s0, tasks@.take(i as int)),
        decreases tasks@.len() - i,
    {
        let task = tasks[i];
        proof {
            assert(tasks@.take(i + 1).drop_last() =~= tasks@.take(i as int));
            assert(tasks@.take(i + 1).last() == task);
            assert(task_in_range(tasks@[i as int], s0.len()));
        }
        let ghost t = store@;
        let c = precedence_one(store, task);
        proof {
            lemma_narrow_step(s0, t, store@, changed, c);
        }
        changed = changed || c;
        i = i + 1;
    }
    proof {
        assert(tasks@.take(tasks@.len() as int) =~= tasks@);
    }
    changed
}


/// The mandatory part of `t` on `s`, when its start or its end is fixed: from the fixed
/// start for its duration, or for its duration up to the fixed end (saturating into
/// `i32`), with its demand and the start it implies.
pub open spec fn contribution_of(s: Seq<Set<int>>, t: TaskSpec) -> Option<MandatoryContribution> {
    let d = duration_min_spec(s, t);
    let dem = demand_min_spec(s, t);
    let si = t.start.index as int;
    let ei = t.end.index as int;
    if is_fixed(s[si]) {
        let v = least(s[si]);
        Some(
            MandatoryContribution {
                interval: MandatoryInterval { start: v as i32, end: clamp_i32_spec(v + d) as i32 },
                demand: dem as i32,
                start_var: t.start,
                start_value: v as i32,
            },
        )
    } else if is_fixed(s[ei]) {
        let e = least(s[ei]);
        let st = clamp_i32_spec(e - d);
        Some(
            MandatoryContribution {
                interval: MandatoryInterval { start: st as i32, end: e as i32 },
                demand: dem as i32,
                start_var: t.start,
                start_value: st as i32,
            },
        )
    } else {
        None
    }
}

/// The mandatory parts of the tasks on `s`, in task order.
pub open spec fn contributions_spec(s: Seq<Set<int>>, tasks: Seq<TaskSpec>) -> Seq<MandatoryContribution>
    decreases tasks.len(),
{
    if tasks.len() == 0 {
        Seq::empty()
    } else {
        let prev = contributions_spec(s, tasks.drop_last());
        match contribution_of(s, tasks.last()) {
            Some(c) => prev.push(c),
            None => prev,
        }
    }
}

/// Collects the mandatory parts of the tasks ([`contributions_spec`]).
pub fn collect_mandatory_contributions(store: &DomainStore, tasks: &Vec<TaskSpec>) -> (r: Vec<MandatoryContribution>)
    requires
        tasks_in_range(tasks@, store@.len()),
    ensures
        r@ == contributions_spec(store@, tasks@),
{
    store.assert_in_range();
    let mut out: Vec<MandatoryContribution> = Vec::new();
    let mut i: usize = 0;
    while i < tasks.len()
        invariant
            0 <= i <= tasks@.len(),
            tasks_in_range(tasks@, store@.len()),
            forall|k: int| #![trigger store@[k]] 0 <= k < store@.len() ==> in_i32_range(store@[k]) && store@[k].finite(),
            out@ == contributions_spec(store@, tasks@.take(i as int)),
        decreases tasks@.len() - i,
    {
        let task = tasks[i];
        proof {
            assert(tasks@.take(i + 1).drop_last() =~= tasks@.take(i as int));
            assert(tasks@.take(i + 1).last() == task);
            assert(task_in_range(tasks@[i as int], store@.len()));
        }
        let duration = duration_min(store, task);
        let demand = demand_min(store, task);
        match fixed_of(store, task.start) {
            Some(start) => {
                out.push(
                    MandatoryContribution {
                        interval: MandatoryInterval { start, end: clamp_i32(start as i64 + duration as i64) },
                        demand,
                        start_var: task.start,
                        start_value: start,
                    },
                );
            },
            None => match fixed_of(store, task.end) {
                Some(end) => {
                    let start = clamp_i32(end as i64 - duration as i64);
                    out.push(
                        MandatoryContribution {
                            interval: MandatoryInterval { start, end },
                            demand,
                            start_var: task.start,
                            start_value: start,
                        },
                    );
                },
                None => {},
            },
        }
        i = i + 1;
    }
    proof {
        assert(tasks@.take(tasks@.len() as int) =~= tasks@);
    }
    out
}

/// The intervals and demands of the contributions.
pub open spec fn intervals_of(cs: Seq<MandatoryContribution>) -> Seq<(MandatoryInterval, i32)> {
    Seq::new(cs.len(), |i: int| (cs[i].interval, cs[i].demand))
}

/// Pairs each contribution's interval with its demand ([`intervals_of`]).
fn mandatory_intervals(contributions: &Vec<MandatoryContribution>) -> (r: Vec<(MandatoryInterval, i32)>)
    ensures
        r@ == intervals_of(contributions@),
{
    let mut out: Vec<(MandatoryInterval, i32)> = Vec::new();
    let mut i: usize = 0;
    while i < contributions.len()
        invariant
            0 <= i <= contributions@.len(),
            out@ == intervals_of(contributions@).take(i as int),
        decreases contributions@.len() - i,
    {
        out.push((contributions[i].interval, contributions[i].demand));
        proof {
            assert(out@ =~= intervals_of(contributions@).take(i + 1));
        }
        i = i + 1;
    }
    proof {
        assert(intervals_of(contributions@).take(i as int) =~= intervals_of(contributions@));
    }
    out
}

/// Least start of the intervals (0 for none).
pub open spec fn min_start(ivs: Seq<(MandatoryInterval, i32)>) -> int
    decreases ivs.len(),
{
    if ivs.len() == 0 {
        0
    } else if ivs.len() == 1 {
        ivs[0].0.start as int
    } else {
        let m = min_start(ivs.drop_last());
        if (ivs.last().0.start as int) < m {
            ivs.last().0.start as int
        } else {
            m
        }
    }
}

/// Greatest end of the intervals (0 for none).
pub open spec fn max_end(ivs: Seq<(MandatoryInterval, i32)>) -> int
    decreases ivs.len(),
{
    if ivs.len() == 0 {
        0
    } else if ivs.len() == 1 {
        ivs[0].0.end as int
    } else {
        let m = max_end(ivs.drop_last());
        if (ivs.last().0.end as int) > m {
            ivs.last().0.end as int
        } else {
            m
        }
    }
}

proof fn lemma_min_start(ivs: Seq<(MandatoryInterval, i32)>)
    requires
        ivs.len() > 0,
    ensures
        exists|i: int| 0 <= i < ivs.len() && ivs[i].0.start == min_start(ivs),
        forall|i: int| 0 <= i < ivs.len() ==> min_start(ivs) <= #[trigger] ivs[i].0.start,
    decreases ivs.len(),
{
    if ivs.len() > 1 {
        lemma_min_start(ivs.drop_last());
        let m = min_start(ivs.drop_last());
        let k = choose|i: int| 0 <= i < ivs.drop_last().len() && ivs.drop_last()[i].0.start == m;
        if (ivs.last().0.start as int) < m {
            assert(ivs[ivs.len() - 1].0.start == min_start(ivs));
        } else {
            assert(ivs[k].0.start == min_start(ivs));
        }
        assert forall|i: int| 0 <= i < ivs.len() implies min_start(ivs) <= #[trigger] ivs[i].0.start by {
            if i < ivs.len() - 1 {
                assert(ivs.drop_last()[i] == ivs[i]);
            }
        }
    } else {
        assert(ivs[0].0.start == min_start(ivs));
    }
}

proof fn lemma_max_end(ivs: Seq<(MandatoryInterval, i32)>)
    requires
        ivs.len() > 0,
    ensures
        exists|i: int| 0 <= i < ivs.len() && ivs[i].0.end == max_end(ivs),
        forall|i: int| 0 <= i < ivs.len() ==> #[trigger] ivs[i].0.end <= max_end(ivs),
    decreases ivs.len(),
{
    if ivs.len() > 1 {
        lemma_max_end(ivs.drop_last());
        let m = max_end(ivs.drop_last());
        let k = choose|i: int| 0 <= i < ivs.drop_last().len() && ivs.drop_last()[i].0.end == m;
        if (ivs.last().0.end as int) > m {
            assert(ivs[ivs.len() - 1].0.end == max_end(ivs));
        } else {
            assert(ivs[k].0.end == max_end(ivs));
        }
        assert forall|i: int| 0 <= i < ivs.len() implies #[trigger] ivs[i].0.end <= max_end(ivs) by {
            if i < ivs.len() - 1 {
                assert(ivs.drop_last()[i] == ivs[i]);
            }
        }
    } else {
        assert(ivs[0].0.end == max_end(ivs));
    }
}

/// Horizon of the intervals: least start and greatest end.
fn horizon(intervals: &Vec<(MandatoryInterval, i32)>) -> (r: (i32, i32))
    ensures
        r.0 == min_start(intervals@),
        r.1 == max_end(intervals@),
{
    let r = interval_horizon(intervals.as_slice());
    proof {
        let ivs = intervals@;
        if ivs.len() > 0 {
            lemma_min_start(ivs);
            lemma_max_end(ivs);
            let a = choose|i: int| 0 <= i < ivs.len() && ivs[i].0.start == r.0;
            let b = choose|i: int| 0 <= i < ivs.len() && ivs[i].0.end == r.1;
            let c = choose|i: int| 0 <= i < ivs.len() && ivs[i].0.start == min_start(ivs);
            let e = choose|i: int| 0 <= i < ivs.len() && ivs[i].0.end == max_end(ivs);
            assert(r.0 <= ivs[c].0.start);
            assert(min_start(ivs) <= ivs[a].0.start);
            assert(ivs[e].0.end <= r.1);
            assert(ivs[b].0.end <= max_end(ivs));
        }
    }
    r
}

/// Sum of the magnitudes of the demands.
pub open spec fn abs_demand_sum(ivs: Seq<(MandatoryInterval, i32)>) -> int
    decreases ivs.len(),
{
    if ivs.len() == 0 {
        0
    } else {
        abs_demand_sum(ivs.drop_last()) + if ivs.last().1 < 0 {
            -(ivs.last().1 as int)
        } else {
            ivs.last().1 as int
        }
    }
}

proof fn lemma_abs_sum_prefix(ivs: Seq<(MandatoryInterval, i32)>, k: int)
    requires
        0 <= k <= ivs.len(),
    ensures
        0 <= abs_demand_sum(ivs.take(k)) <= abs_demand_sum(ivs),
    decreases ivs.len(),
{
    if ivs.len() > 0 {
        if k == ivs.len() {
            assert(ivs.take(k) =~= ivs);
            lemma_abs_sum_prefix(ivs.drop_last(), k - 1);
            assert(ivs.drop_last().take(k - 1) =~= ivs.drop_last());
        } else {
            lemma_abs_sum_prefix(ivs.drop_last(), k);
            assert(ivs.drop_last().take(k) =~= ivs.take(k));
        }
    } else {
        assert(ivs.take(k) =~= ivs);
    }
}

proof fn lemma_load_abs(ivs: Seq<(MandatoryInterval, i32)>, hs: int, he: int, t: int)
    ensures
        -abs_demand_sum(ivs) <= load(ivs, hs, he, t) <= abs_demand_sum(ivs),
    decreases ivs.len(),
{
    if ivs.len() > 0 {
        lemma_load_abs(ivs.drop_last(), hs, he, t);
    }
}

/// The horizon of the intervals fits an `i32` span and their demands add up within
/// `i32` in magnitude, so that the time table can be built.
pub open spec fn table_fits(ivs: Seq<(MandatoryInterval, i32)>) -> bool {
    &&& i32::MIN <= max_end(ivs) - min_start(ivs) <= i32::MAX
    &&& abs_demand_sum(ivs) <= i32::MAX
}

/// The usage at each time of the horizon of the intervals.
pub open spec fn table_spec(ivs: Seq<(MandatoryInterval, i32)>) -> Seq<TimePoint> {
    let hs = min_start(ivs);
    let he = max_end(ivs);
    let n = if he > hs {
        he - hs
    } else {
        0
    };
    Seq::new(n as nat, |j: int| TimePoint { time: (hs + j) as i32, usage: load(ivs, hs, he, hs + j) as i32 })
}

/// The time table of the intervals over their horizon ([`table_spec`]), or `None` when
/// it does not fit ([`table_fits`]).
fn time_table(intervals: &Vec<(MandatoryInterval, i32)>) -> (r: Option<Vec<TimePoint>>)
    ensures
        r is Some <==> table_fits(intervals@),
        r matches Some(t) ==> t@ == table_spec(intervals@),
{
    let (hs, he) = horizon(intervals);
    if (he as i64) - (hs as i64) > i32::MAX as i64 || (he as i64) - (hs as i64) < i32::MIN as i64 {
        return None;
    }
    let mut total: i64 = 0;
    let mut i: usize = 0;
    while i < intervals.len()
        invariant
            0 <= i <= intervals@.len(),
            total == abs_demand_sum(intervals@.take(i as int)),
            total <= i32::MAX,
        decreases intervals@.len() - i,
    {
        proof {
            assert(intervals@.take(i + 1).drop_last() =~= intervals@.take(i as int));
        }
        let d = intervals[i].1;
        total = if d < 0 {
            total - d as i64
        } else {
            total + d as i64
        };
        if total > i32::MAX as i64 {
            proof {
                lemma_abs_sum_prefix(intervals@, i + 1);
            }
            return None;
        }
        i = i + 1;
    }
    proof {
        assert(intervals@.take(i as int) =~= intervals@);
        assert forall|k: int, t: int| 0 <= k <= intervals@.len() && hs <= t < he implies i32::MIN <= #[trigger] load(
            intervals@.take(k),
            hs as int,
            he as int,
            t,
        ) <= i32::MAX by {
            lemma_abs_sum_prefix(intervals@, k);
            lemma_load_abs(intervals@.take(k), hs as int, he as int, t);
        }
    }
    let table = build_time_table(intervals.as_slice(), hs, he);
    proof {
        let ts = table_spec(intervals@);
        assert(table@.len() == ts.len());
        assert forall|j: int| 0 <= j < table@.len() implies table@[j] == ts[j] by {
            assert(table@[j].time == hs + j);
            assert(ts[j].time == (hs + j) as i32);
            assert(ts[j].usage == load(intervals@, hs as int, he as int, hs + j) as i32);
        }
        assert(table@ =~= ts);
    }
    Some(table)
}

/// Greatest usage of the table (0 for an empty table).
pub open spec fn peak_spec(table: Seq<TimePoint>) -> int
    decreases table.len(),
{
    if table.len() == 0 {
        0
    } else if table.len() == 1 {
        table[0].usage as int
    } else {
        let m = peak_spec(table.drop_last());
        if table.last().usage as int > m {
            table.last().usage as int
        } else {
            m
        }
    }
}

/// Greatest usage of the table ([`peak_spec`]).
fn peak_usage(table: &Vec<TimePoint>) -> (r: i32)
    ensures
        r == peak_spec(table@),
{
    if table.len() == 0 {
        return 0;
    }
    let mut best = table[0].usage;
    let mut i: usize = 1;
    proof {
        assert(table@.take(1).len() == 1);
    }
    while i < table.len()
        invariant
            1 <= i <= table@.len(),
            best == peak_spec(table@.take(i as int)),
        decreases table@.len() - i,
    {
        proof {
            assert(table@.take(i + 1).drop_last() =~= table@.take(i as int));
        }
        if table[i].usage > best {
            best = table[i].usage;
        }
        i = i + 1;
    }
    proof {
        assert(table@.take(i as int) =~= table@);
    }
    best
}

/// Raises the lower bound of the capacity variable to the peak mandatory usage when the
/// peak exceeds `current_min`; returns whether a domain changed.
pub fn tighten_capacity_lower_bound(
    store: &mut DomainStore,
    tasks: &Vec<TaskSpec>,
    capacity_var: Option<VariableId>,
    current_min: i32,
) -> (changed: bool)
    requires
        tasks_in_range(tasks@, old(store)@.len()),
        capacity_var matches Some(c) ==> c.index < old(store)@.len(),
    ensures
        final(store)@ == (match capacity_var {
            Some(c) => {
                let ivs = intervals_of(contributions_spec(old(store)@, tasks@));
                if ivs.len() > 0 && table_fits(ivs) && peak_spec(table_spec(ivs)) > current_min {
                    cut_lo(old(store)@, c.index as int, peak_spec(table_spec(ivs)))
                } else {
                    old(store)@
                }
            },
            None => old(store)@,
        }),
        narrows(old(store)@, final(store)@),
        changed == (final(store)@ != old(store)@),
{
    let ghost s0 = store@;
    proof {
        assert(narrows(s0, s0));
    }
    let cap = match capacity_var {
        Some(c) => c,
        None => {
            return false;
        },
    };
    let contributions = collect_mandatory_contributions(store, tasks);
    if contributions.len() == 0 {
        return false;
    }
    let intervals = mandatory_intervals(&contributions);
    let table = match time_table(&intervals) {
        Some(t) => t,
        None => {
            return false;
        },
    };
    let peak = peak_usage(&table);
    if peak > current_min {
        store.remove_below(cap, peak)
    } else {
        false
    }
}

/// Values of `var` in increasing order.
pub fn domain_values(store: &DomainStore, var: VariableId) -> (r: Vec<i32>)
    requires
        var.index < store@.len(),
    ensures
        forall|j: int, k: int| 0 <= j < k < r@.len() ==> r@[j] < r@[k],
        forall|k: int| 0 <= k < r@.len() ==> store@[var.index as int].contains(#[trigger] r@[k] as int),
        forall|x: int| #[trigger] store@[var.index as int].contains(x) ==> seq_has(r@, x),
{
    store.values(var)
}

/// The starts of a task of `duration` whose run meets `[start, end)`.
pub open spec fn meets(duration: int, start: int, end: int) -> spec_fn(int) -> bool {
    |v: int| v < end && v + duration > start
}

/// Removes from the start of `task` every value whose run of `duration` meets
/// `[start, end)`; returns whether a domain changed.
pub fn forbid_task_during(store: &mut DomainStore, task: TaskSpec, duration: i32, start: i32, end: i32) -> (changed: bool)
    requires
        task.start.index < old(store)@.len(),
    ensures
        final(store)@ == old(store)@.update(
            task.start.index as int,
            old(store)@[task.start.index as int].filter(|v: int| !meets(duration as int, start as int, end as int)(v)),
        ),
        narrows(old(store)@, final(store)@),
        changed == (final(store)@ != old(store)@),
{
    let ghost s = store@;
    let ghost o = task.start.index as int;
    let ghost hit = meets(duration as int, start as int, end as int);
    proof {
        assert(narrows(s, s));
    }
    let values = domain_values(store, task.start);
    let mut changed = false;
    let mut k: usize = 0;
    proof {
        assert(s[o].filter(|x: int| !(hit(x) && seq_has(values@.take(0), x))) =~= s[o]);
        assert(s.update(o, s[o]) =~= s);
    }
    while k < values.len()
        invariant
            0 <= k <= values@.len(),
            o == task.start.index,
            o < s.len(),
            hit == meets(duration as int, start as int, end as int),
            store@ == s.update(o, s[o].filter(|x: int| !(hit(x) && seq_has(values@.take(k as int), x)))),
            narrows(s, store@),
            changed == (store@ != s),
        decreases values@.len() - k,
    {
        let value = values[k];
        let ghost t = store@;
        proof {
            let ta = values@.take(k + 1);
            let tb = values@.take(k as int);
            assert forall|x: int| seq_has(ta, x) <==> (seq_has(tb, x) || x == value) by {
                if seq_has(ta, x) {
                    let q = choose|q: int| 0 <= q < ta.len() && ta[q] == x;
                    if q < k {
                        assert(tb[q] == x);
                    }
                }
                if seq_has(tb, x) {
                    let q = choose|q: int| 0 <= q < tb.len() && tb[q] == x;
                    assert(ta[q] == x);
                }
                if x == value {
                    assert(ta[k as int] == x);
                }
            }
        }
        if value < end && (value as i64 + duration as i64) > start as i64 {
            let step = store.remove_value(task.start, value);
            proof {
                assert(hit(value as int));
                assert(t[o].remove(value as int) =~= s[o].filter(|x: int| !(hit(x) && seq_has(values@.take(k + 1), x))));
                assert(store@ =~= s.update(o, s[o].filter(|x: int| !(hit(x) && seq_has(values@.take(k + 1), x)))));
                lemma_narrow_step(s, t, store@, changed, step);
            }
            changed = changed || step;
        } else {
            proof {
                assert(!hit(value as int));
                assert(s[o].filter(|x: int| !(hit(x) && seq_has(values@.take(k + 1), x))) =~= s[o].filter(
                    |x: int| !(hit(x) && seq_has(values@.take(k as int), x)),
                ));
            }
        }
        k = k + 1;
    }
    proof {
        assert(values@.take(k as int) =~= values@);
        assert(s[o].filter(|x: int| !(hit(x) && seq_has(values@, x))) =~= s[o].filter(|x: int| !hit(x)));
    }
    changed
}


/// The contributions' intervals over their horizon: the earliest time where their
/// demands add up to more than `capacity`.
pub open spec fn overloaded_at(ivs: Seq<(MandatoryInterval, i32)>, capacity: int, t: int) -> bool {
    &&& min_start(ivs) <= t < max_end(ivs)
    &&& load(ivs, min_start(ivs), max_end(ivs), t) > capacity
}

/// `literals` name, once each in order of variable, the starts of the contributions
/// covering `time`, each with the start value of such a contribution.
pub open spec fn literals_at(cs: Seq<MandatoryContribution>, time: int, literals: Seq<(VariableId, i32)>) -> bool {
    &&& forall|a: int, b: int| 0 <= a < b < literals.len() ==> literals[a].0.index < literals[b].0.index
    &&& forall|a: int| 0 <= a < literals.len() ==> justified_literal(cs, time, #[trigger] literals[a])
    &&& forall|i: int|
        0 <= i < cs.len() && covers(#[trigger] cs[i], time) ==> exists|a: int|
            0 <= a < literals.len() && literals[a].0 == cs[i].start_var
}

/// The start literals of the mandatory parts at the first time their demands exceed
/// `capacity`, if there is one.
pub fn mandatory_overload_literals(store: &DomainStore, tasks: &Vec<TaskSpec>, capacity: i32) -> (r: Option<
    Vec<(VariableId, i32)>,
>)
    requires
        tasks_in_range(tasks@, store@.len()),
    ensures
        ({
            let cs = contributions_spec(store@, tasks@);
            let ivs = intervals_of(cs);
            &&& r is Some <==> (cs.len() > 0 && exists|t: int| overloaded_at(ivs, capacity as int, t))
            &&& r matches Some(l) ==> exists|t: int| overloaded_at(ivs, capacity as int, t) && literals_at(cs, t, l@)
        }),
{
    let contributions = collect_mandatory_contributions(store, tasks);
    if contributions.len() == 0 {
        return None;
    }
    let intervals = mandatory_intervals(&contributions);
    let (hs, he) = horizon(&intervals);
    match find_overload_time(intervals.as_slice(), capacity, hs, he) {
        Some(t) => {
            let literals = mandatory_literals_at_time(contributions.as_slice(), t);
            proof {
                assert(overloaded_at(intervals@, capacity as int, t as int));
                assert(literals_at(contributions@, t as int, literals@));
            }
            Some(literals)
        },
        None => {
            proof {
                assert forall|t: int| !overloaded_at(intervals@, capacity as int, t) by {}
            }
            None
        },
    }
}

/// The start literals of the mandatory parts at the first time of the time table whose
/// usage exceeds `capacity`, if there is one.
pub fn time_table_excess_literals(store: &DomainStore, tasks: &Vec<TaskSpec>, capacity: i32) -> (r: Option<
    Vec<(VariableId, i32)>,
>)
    requires
        tasks_in_range(tasks@, store@.len()),
    ensures
        ({
            let cs = contributions_spec(store@, tasks@);
            let ivs = intervals_of(cs);
            let tb = table_spec(ivs);
            &&& r is Some <==> (cs.len() > 0 && table_fits(ivs) && exists|i: int|
                0 <= i < tb.len() && tb[i].usage > capacity)
            &&& r matches Some(l) ==> exists|i: int|
                0 <= i < tb.len() && tb[i].usage > capacity && literals_at(cs, tb[i].time as int, l@)
        }),
{
    let contributions = collect_mandatory_contributions(store, tasks);
    if contributions.len() == 0 {
        return None;
    }
    let intervals = mandatory_intervals(&contributions);
    let table = match time_table(&intervals) {
        Some(t) => t,
        None => {
            return None;
        },
    };
    match find_excess_time(table.as_slice(), capacity) {
        Some(t) => {
            let literals = mandatory_literals_at_time(contributions.as_slice(), t);
            Some(literals)
        },
        None => None,
    }
}

/// The edge-finding reading of `t` on `s`: none when its start or end domain is empty,
/// its duration or demand is not positive, or its earliest start plus duration
/// (saturating) passes its latest end.
pub open spec fn ef_task_of(s: Seq<Set<int>>, t: TaskSpec) -> Option<EdgeFindingTask> {
    let si = t.start.index as int;
    let ei = t.end.index as int;
    let d = duration_min_spec(s, t);
    let dem = demand_min_spec(s, t);
    if s[si].is_empty() || s[ei].is_empty() || d <= 0 || dem <= 0 || clamp_i32_spec(least(s[si]) + d) > greatest(s[ei]) {
        None
    } else {
        Some(
            EdgeFindingTask {
                start: t.start,
                end: t.end,
                est: least(s[si]) as i32,
                lct: greatest(s[ei]) as i32,
                duration: d as i32,
                demand: dem as i32,
                energy: (d * dem) as i64,
            },
        )
    }
}

/// The edge-finding readings of the tasks on `s`, in task order.
pub open spec fn ef_tasks_spec(s: Seq<Set<int>>, tasks: Seq<TaskSpec>) -> Seq<EdgeFindingTask>
    decreases tasks.len(),
{
    if tasks.len() == 0 {
        Seq::empty()
    } else {
        let prev = ef_tasks_spec(s, tasks.drop_last());
        match ef_task_of(s, tasks.last()) {
            Some(e) => prev.push(e),
            None => prev,
        }
    }
}

/// Reads the tasks for edge finding ([`ef_tasks_spec`]).
pub fn collect_edge_finding_tasks(store: &DomainStore, tasks: &Vec<TaskSpec>) -> (r: Vec<EdgeFindingTask>)
    requires
        tasks_in_range(tasks@, store@.len()),
    ensures
        r@ == ef_tasks_spec(store@, tasks@),
        forall|k: int|
            0 <= k < r@.len() ==> ef_task_ok(#[trigger] r@[k]) && r@[k].start.index < store@.len() && r@[k].end.index
                < store@.len(),
{
    store.assert_in_range();
    let mut out: Vec<EdgeFindingTask> = Vec::new();
    let mut i: usize = 0;
    while i < tasks.len()
        invariant
            0 <= i <= tasks@.len(),
            tasks_in_range(tasks@, store@.len()),
            forall|k: int| #![trigger store@[k]] 0 <= k < store@.len() ==> in_i32_range(store@[k]) && store@[k].finite(),
            out@ == ef_tasks_spec(store@, tasks@.take(i as int)),
            forall|k: int|
                0 <= k < out@.len() ==> ef_task_ok(#[trigger] out@[k]) && out@[k].start.index < store@.len()
                    && out@[k].end.index < store@.len(),
        decreases tasks@.len() - i,
    {
        let task = tasks[i];
        proof {
            assert(tasks@.take(i + 1).drop_last() =~= tasks@.take(i as int));
            assert(tasks@.take(i + 1).last() == task);
            assert(task_in_range(tasks@[i as int], store@.len()));
        }
        match (store.min(task.start), store.max(task.end)) {
            (Some(start_min), Some(end_max)) => {
                proof {
                    lemma_least_is(store@[task.start.index as int], start_min as int);
                    lemma_greatest_is(store@[task.end.index as int], end_max as int);
                }
                let duration = duration_min(store, task);
                let demand = demand_min(store, task);
                if duration > 0 && demand > 0 && clamp_i32(est(start_min) as i64 + duration as i64) <= lct(end_max) {
                    proof {
                        assert(0 < duration * demand <= 0x4000_0000_0000_0000) by (nonlinear_arith)
                            requires
                                0 < duration <= i32::MAX,
                                0 < demand <= i32::MAX,
                        ;
                    }
                    let energy = duration as i64 * demand as i64;
                    out.push(
                        EdgeFindingTask {
                            start: task.start,
                            end: task.end,
                            est: start_min,
                            lct: end_max,
                            duration,
                            demand,
                            energy,
                        },
                    );
                }
            },
            _ => {},
        }
        i = i + 1;
    }
    proof {
        assert(tasks@.take(tasks@.len() as int) =~= tasks@);
    }
    out
}

/// What edge finding relies on of a task: positive duration and demand, energy their
/// product, and earliest start plus duration (saturating) within the latest end.
pub open spec fn ef_task_ok(t: EdgeFindingTask) -> bool {
    &&& t.duration > 0
    &&& t.demand > 0
    &&& t.energy == t.duration * t.demand
    &&& clamp_i32_spec(t.est + t.duration) <= t.lct
}

/// Orders tasks by latest completion, then earliest start, then start variable.
pub open spec fn by_lct_key() -> spec_fn(EdgeFindingTask) -> int {
    |t: EdgeFindingTask| t.lct * 0x2_0000_0000_0000_0000_0000_0000 + t.est * 0x1_0000_0000_0000_0000 + t.start.index
}

/// Orders tasks by decreasing earliest start, then decreasing latest completion, then
/// start variable.
pub open spec fn by_est_desc_key() -> spec_fn(EdgeFindingTask) -> int {
    |t: EdgeFindingTask| -t.est * 0x2_0000_0000_0000_0000_0000_0000 - t.lct * 0x1_0000_0000_0000_0000 + t.start.index
}

fn lct_key_gt(a: &EdgeFindingTask, b: &EdgeFindingTask) -> (r: bool)
    ensures
        r == (by_lct_key()(*a) > by_lct_key()(*b)),
{
    let ai = a.start.index;
    let bi = b.start.index;
    proof {
        assert(ai < 0x1_0000_0000_0000_0000 && bi < 0x1_0000_0000_0000_0000);
    }
    a.lct > b.lct || (a.lct == b.lct && (a.est > b.est || (a.est == b.est && ai > bi)))
}

fn est_desc_key_gt(a: &EdgeFindingTask, b: &EdgeFindingTask) -> (r: bool)
    ensures
        r == (by_est_desc_key()(*a) > by_est_desc_key()(*b)),
{
    let ai = a.start.index;
    let bi = b.start.index;
    proof {
        assert(ai < 0x1_0000_0000_0000_0000 && bi < 0x1_0000_0000_0000_0000);
    }
    a.est < b.est || (a.est == b.est && (a.lct < b.lct || (a.lct == b.lct && ai > bi)))
}

/// Compares by [`by_est_desc_key`] with `desc_est`, else by [`by_lct_key`].
fn key_gt(a: &EdgeFindingTask, b: &EdgeFindingTask, desc_est: bool) -> (r: bool)
    ensures
        r == ((if desc_est { by_est_desc_key() } else { by_lct_key() })(*a) > (if desc_est {
            by_est_desc_key()
        } else {
            by_lct_key()
        })(*b)),
{
    if desc_est {
        est_desc_key_gt(a, b)
    } else {
        lct_key_gt(a, b)
    }
}

/// `tasks` stably sorted by [`by_lct_key`] or, with `desc_est`, by [`by_est_desc_key`].
fn sort_tasks(tasks: &Vec<EdgeFindingTask>, desc_est: bool) -> (r: Vec<EdgeFindingTask>)
    ensures
        r@ == stable_sort_by(tasks@, if desc_est { by_est_desc_key() } else { by_lct_key() }),
{
    let ghost key = if desc_est { by_est_desc_key() } else { by_lct_key() };
    let mut out: Vec<EdgeFindingTask> = Vec::new();
    let mut i: usize = 0;
    while i < tasks.len()
        invariant
            0 <= i <= tasks@.len(),
            key == (if desc_est { by_est_desc_key() } else { by_lct_key() }),
            out@ == stable_sort_by(tasks@.take(i as int), key),
        decreases tasks@.len() - i,
    {
        let x = tasks[i];
        proof {
            assert(tasks@.take(i + 1).drop_last() =~= tasks@.take(i as int));
            assert(tasks@.take(i + 1).last() == x);
        }
        let mut p: usize = out.len();
        while p > 0 && key_gt(&out[p - 1], &x, desc_est)
            invariant
                0 <= p <= out@.len(),
                key == (if desc_est { by_est_desc_key() } else { by_lct_key() }),
                forall|k: int| p <= k < out@.len() ==> key(#[trigger] out@[k]) > key(x),
            decreases p,
        {
            p = p - 1;
        }
        proof {
            lemma_stable_insert_at(out@, x, key, p as int);
        }
        out.insert(p, x);
        i = i + 1;
    }
    proof {
        assert(tasks@.take(tasks@.len() as int) =~= tasks@);
    }
    out
}


/// Every entry of the stable sort of `e` is an entry of `e`, and it keeps the length.
proof fn lemma_sort_members<A>(e: Seq<A>, key: spec_fn(A) -> int)
    ensures
        stable_sort_by(e, key).len() == e.len(),
        forall|k: int| 0 <= k < e.len() ==> exists|i: int| 0 <= i < e.len() && #[trigger] stable_sort_by(e, key)[k] == e[i],
    decreases e.len(),
{
    if e.len() > 0 {
        let d = e.drop_last();
        lemma_sort_members(d, key);
        lemma_insert_members(stable_sort_by(d, key), e.last(), key);
        let r = stable_sort_by(e, key);
        assert forall|k: int| 0 <= k < e.len() implies exists|i: int| 0 <= i < e.len() && #[trigger] r[k] == e[i] by {
            if r[k] == e.last() {
                assert(r[k] == e[e.len() - 1]);
            } else {
                let j = choose|j: int| 0 <= j < d.len() && stable_sort_by(d, key)[j] == r[k];
                let i = choose|i: int| 0 <= i < d.len() && #[trigger] stable_sort_by(d, key)[j] == d[i];
                assert(r[k] == e[i]);
            }
        }
    }
}

proof fn lemma_insert_members<A>(s: Seq<A>, x: A, key: spec_fn(A) -> int)
    ensures
        stable_insert(s, x, key).len() == s.len() + 1,
        forall|k: int| 0 <= k <= s.len() ==> #[trigger] stable_insert(s, x, key)[k] == x || exists|j: int|
            0 <= j < s.len() && s[j] == stable_insert(s, x, key)[k],
    decreases s.len(),
{
    if s.len() > 0 && key(s.last()) > key(x) {
        let d = s.drop_last();
        lemma_insert_members(d, x, key);
        let r = stable_insert(s, x, key);
        assert forall|k: int| 0 <= k <= s.len() implies #[trigger] r[k] == x || exists|j: int| 0 <= j < s.len() && s[j] == r[k] by {
            if k == s.len() {
                assert(s[s.len() - 1] == r[k]);
            } else if r[k] != x {
                let j = choose|j: int| 0 <= j < d.len() && d[j] == stable_insert(d, x, key)[k];
                assert(s[j] == r[k]);
            }
        }
    } else if s.len() > 0 {
        let r = stable_insert(s, x, key);
        assert forall|k: int| 0 <= k <= s.len() implies #[trigger] r[k] == x || exists|j: int| 0 <= j < s.len() && s[j] == r[k] by {
            if k < s.len() {
                assert(s[k] == r[k]);
            }
        }
    }
}

/// Total energy of the first `m` tasks of `by`.
pub open spec fn theta_energy(by: Seq<EdgeFindingTask>, m: int) -> int
    decreases m,
{
    if m <= 0 {
        0
    } else {
        theta_energy(by, m - 1) + by[m - 1].energy
    }
}

/// Least earliest start of the first `m` tasks of `by` (`i32::MAX` for none).
pub open spec fn theta_est(by: Seq<EdgeFindingTask>, m: int) -> int
    decreases m,
{
    if m <= 0 {
        i32::MAX as int
    } else {
        let p = theta_est(by, m - 1);
        if (by[m - 1].est as int) < p {
            by[m - 1].est as int
        } else {
            p
        }
    }
}

/// The first `m` tasks of `by` need more energy than `capacity` offers from their least
/// earliest start to the latest completion of the last of them.
pub open spec fn prefix_overloaded(by: Seq<EdgeFindingTask>, capacity: int, m: int) -> bool {
    &&& 1 <= m <= by.len()
    &&& capacity * (by[m - 1].lct - theta_est(by, m)) - theta_energy(by, m) < 0
}

/// The edge-finding tasks of `tasks` on `s` by latest completion.
pub open spec fn by_lct_spec(s: Seq<Set<int>>, tasks: Seq<TaskSpec>) -> Seq<EdgeFindingTask> {
    stable_sort_by(ef_tasks_spec(s, tasks), by_lct_key())
}

/// The start literals `(start, est)` of the first `m` tasks of `by`.
pub open spec fn prefix_literals(by: Seq<EdgeFindingTask>, m: int) -> Seq<(VariableId, i32)> {
    Seq::new(m as nat, |k: int| (by[k].start, by[k].est))
}

/// The start literals of the shortest prefix, by latest completion, of the tasks that
/// overloads the resource, if one does.
pub fn energy_overload_literals(store: &DomainStore, tasks: &Vec<TaskSpec>, capacity: i32) -> (r: Option<
    Vec<(VariableId, i32)>,
>)
    requires
        tasks_in_range(tasks@, store@.len()),
    ensures
        ({
            let by = by_lct_spec(store@, tasks@);
            &&& r is Some <==> exists|m: int| prefix_overloaded(by, capacity as int, m)
            &&& r matches Some(l) ==> exists|m: int|
                prefix_overloaded(by, capacity as int, m) && l@ == prefix_literals(by, m) && forall|q: int|
                    1 <= q < m ==> !prefix_overloaded(by, capacity as int, q)
        }),
{
    let snapshot = collect_edge_finding_tasks(store, tasks);
    let by = sort_tasks(&snapshot, false);
    let ghost bs = by@;
    proof {
        assert(bs == by_lct_spec(store@, tasks@));
        lemma_sort_members(snapshot@, by_lct_key());
        assert forall|k: int| 0 <= k < bs.len() implies ef_task_ok(#[trigger] bs[k]) by {
            let i = choose|i: int| 0 <= i < snapshot@.len() && #[trigger] bs[k] == snapshot@[i];
            assert(ef_task_ok(snapshot@[i]));
        }
    }
    let mut energy: i128 = 0;
    let mut est_theta: i32 = i32::MAX;
    let mut index: usize = 0;
    while index < by.len()
        invariant
            0 <= index <= bs.len(),
            by@ == bs,
            bs.len() <= usize::MAX,
            bs == by_lct_spec(store@, tasks@),
            forall|k: int| 0 <= k < bs.len() ==> ef_task_ok(#[trigger] bs[k]),
            energy == theta_energy(bs, index as int),
            0 <= energy <= index * 0x4000_0000_0000_0000,
            est_theta == theta_est(bs, index as int),
            forall|q: int| 1 <= q <= index ==> !prefix_overloaded(bs, capacity as int, q),
        decreases bs.len() - index,
    {
        let task = by[index];
        proof {
            assert(ef_task_ok(bs[index as int]));
            assert(0 < task.energy <= 0x4000_0000_0000_0000) by (nonlinear_arith)
                requires
                    task.energy == task.duration * task.demand,
                    0 < task.duration <= i32::MAX,
                    0 < task.demand <= i32::MAX,
            ;
        }
        energy = energy + task.energy as i128;
        if task.est < est_theta {
            est_theta = task.est;
        }
        proof {
            assert(est_theta == theta_est(bs, index + 1));
            assert(energy == theta_energy(bs, index + 1));
        }
        let available = residual_energy(capacity, est_theta, task.lct, energy);
        if available < 0 {
            let mut literals: Vec<(VariableId, i32)> = Vec::new();
            let mut k: usize = 0;
            while k <= index
                invariant
                    0 <= k <= index + 1,
                    index < bs.len(),
                    bs.len() <= usize::MAX,
                    by@ == bs,
                    literals@ == prefix_literals(bs, k as int),
                decreases index + 1 - k,
            {
                literals.push((by[k].start, by[k].est));
                proof {
                    assert(literals@ =~= prefix_literals(bs, k + 1));
                }
                k = k + 1;
            }
            proof {
                assert(prefix_overloaded(bs, capacity as int, index + 1));
            }
            return Some(literals);
        }
        index = index + 1;
    }
    None
}


/// Greatest latest completion of the first `m` tasks of `by` (`i32::MIN` for none).
pub open spec fn theta_lct(by: Seq<EdgeFindingTask>, m: int) -> int
    decreases m,
{
    if m <= 0 {
        i32::MIN as int
    } else {
        let p = theta_lct(by, m - 1);
        if (by[m - 1].lct as int) > p {
            by[m - 1].lct as int
        } else {
            p
        }
    }
}

/// Store after the tasks of `by` at positions `j + 1 .. o` are pushed past the prefix
/// Θ of the first `j + 1` tasks: a task whose energy does not fit beside Θ's between
/// their least earliest start and Θ's latest completion, and leaves `diff` of its energy
/// beyond what Θ leaves free, starts no earlier than [`edge_finding_new_est`] gives, when
/// that is after its earliest start.
pub open spec fn est_outer(s: Seq<Set<int>>, by: Seq<EdgeFindingTask>, cap: int, j: int, o: int) -> Seq<Set<int>>
    decreases o - j,
{
    if o <= j + 1 {
        s
    } else {
        let t = est_outer(s, by, cap, j, o - 1);
        let outer = by[o - 1];
        let energy = theta_energy(by, j + 1);
        let est_theta = theta_est(by, j + 1);
        let lct_theta = by[j].lct as int;
        let available = cap * (lct_theta - est_theta) - energy;
        let est_union = if est_theta < outer.est { est_theta } else { outer.est as int };
        let diff = outer.energy - available;
        if energy + outer.energy > cap * (lct_theta - est_union) && diff > 0 {
            let ne = clamp_i32_spec(lct_theta - outer.duration + ceil_div_pos(diff, outer.demand as int));
            if ne > outer.est {
                cut_lo(t, outer.start.index as int, ne)
            } else {
                t
            }
        } else {
            t
        }
    }
}

/// Store after the prefixes of the first `m` lengths, each that fits the resource, push
/// the tasks after them ([`est_outer`]).
pub open spec fn est_rounds(s: Seq<Set<int>>, by: Seq<EdgeFindingTask>, cap: int, m: int) -> Seq<Set<int>>
    decreases m,
{
    if m <= 0 {
        s
    } else {
        let t = est_rounds(s, by, cap, m - 1);
        let j = m - 1;
        if cap * (by[j].lct - theta_est(by, j + 1)) - theta_energy(by, j + 1) < 0 {
            t
        } else {
            est_outer(t, by, cap, j, by.len() as int)
        }
    }
}

/// The mirror of [`est_outer`] on `by` ordered by decreasing earliest start: a task is
/// pulled before Θ, its end cut to [`edge_finding_new_lct`] and its start to that minus
/// its duration (saturating), each when that is before the current bound.
pub open spec fn lct_outer(s: Seq<Set<int>>, by: Seq<EdgeFindingTask>, cap: int, j: int, o: int) -> Seq<Set<int>>
    decreases o - j,
{
    if o <= j + 1 {
        s
    } else {
        let t = lct_outer(s, by, cap, j, o - 1);
        let outer = by[o - 1];
        let energy = theta_energy(by, j + 1);
        let lct_theta = theta_lct(by, j + 1);
        let est_theta = by[j].est as int;
        let available = cap * (lct_theta - est_theta) - energy;
        let lct_union = if lct_theta > outer.lct { lct_theta } else { outer.lct as int };
        let diff = outer.energy - available;
        if energy + outer.energy > cap * (lct_union - est_theta) && diff > 0 {
            let nl = clamp_i32_spec(est_theta + outer.duration - ceil_div_pos(diff, outer.demand as int));
            let t1 = if nl < outer.lct {
                cut_hi(t, outer.end.index as int, nl)
            } else {
                t
            };
            let ns = clamp_i32_spec(nl - outer.duration);
            if ns < outer.lct - outer.duration {
                cut_hi(t1, outer.start.index as int, ns)
            } else {
                t1
            }
        } else {
            t
        }
    }
}

/// The mirror of [`est_rounds`] with [`lct_outer`].
pub open spec fn lct_rounds(s: Seq<Set<int>>, by: Seq<EdgeFindingTask>, cap: int, m: int) -> Seq<Set<int>>
    decreases m,
{
    if m <= 0 {
        s
    } else {
        let t = lct_rounds(s, by, cap, m - 1);
        let j = m - 1;
        if cap * (theta_lct(by, j + 1) - by[j].est) - theta_energy(by, j + 1) < 0 {
            t
        } else {
            lct_outer(t, by, cap, j, by.len() as int)
        }
    }
}

/// Every domain of `t` is its domain in `s`, or that domain cut from below.
pub open spec fn cut_from_below(s: Seq<Set<int>>, t: Seq<Set<int>>) -> bool {
    &&& t.len() == s.len()
    &&& forall|k: int| 0 <= k < s.len() ==> #[trigger] t[k] == s[k] || exists|b: int| t[k] == at_least(s[k], b)
}

/// Every domain of `t` is its domain in `s`, or that domain cut from above.
pub open spec fn cut_from_above(s: Seq<Set<int>>, t: Seq<Set<int>>) -> bool {
    &&& t.len() == s.len()
    &&& forall|k: int| 0 <= k < s.len() ==> #[trigger] t[k] == s[k] || exists|b: int| t[k] == at_most(s[k], b)
}

proof fn lemma_cut_below_more(s: Seq<Set<int>>, t: Seq<Set<int>>, k: int, b: int)
    requires
        cut_from_below(s, t),
        0 <= k < s.len(),
    ensures
        cut_from_below(s, t.update(k, at_least(t[k], b))),
{
    let u = t.update(k, at_least(t[k], b));
    assert forall|i: int| 0 <= i < s.len() implies #[trigger] u[i] == s[i] || exists|c: int| u[i] == at_least(s[i], c) by {
        if i == k {
            if t[k] == s[k] {
                assert(u[i] == at_least(s[i], b));
            } else {
                let c = choose|c: int| t[k] == at_least(s[k], c);
                let m = if c > b { c } else { b };
                assert(u[i] =~= at_least(s[i], m));
            }
        }
    }
}

proof fn lemma_cut_above_more(s: Seq<Set<int>>, t: Seq<Set<int>>, k: int, b: int)
    requires
        cut_from_above(s, t),
        0 <= k < s.len(),
    ensures
        cut_from_above(s, t.update(k, at_most(t[k], b))),
{
    let u = t.update(k, at_most(t[k], b));
    assert forall|i: int| 0 <= i < s.len() implies #[trigger] u[i] == s[i] || exists|c: int| u[i] == at_most(s[i], c) by {
        if i == k {
            if t[k] == s[k] {
                assert(u[i] == at_most(s[i], b));
            } else {
                let c = choose|c: int| t[k] == at_most(s[k], c);
                let m = if c < b { c } else { b };
                assert(u[i] =~= at_most(s[i], m));
            }
        }
    }
}

/// Edge finding on earliest starts ([`est_rounds`]): for each prefix Θ of the tasks by
/// latest completion that fits the resource, every later task whose energy does not fit
/// beside Θ in the window up to the latest completion of Θ starts no earlier than
/// [`edge_finding_new_est`] gives, when that is later than its earliest start. Returns
/// whether a domain changed.
pub fn edge_finding_update_est(store: &mut DomainStore, tasks: &Vec<EdgeFindingTask>, capacity: i32) -> (changed: bool)
    requires
        forall|k: int| 0 <= k < tasks@.len() ==> ef_task_ok(#[trigger] tasks@[k]) && tasks@[k].start.index < old(store)@.len(),
    ensures
        narrows(old(store)@, final(store)@),
        changed == (final(store)@ != old(store)@),
        cut_from_below(old(store)@, final(store)@),
        final(store)@ == est_rounds(
            old(store)@,
            stable_sort_by(tasks@, by_lct_key()),
            capacity as int,
            tasks@.len() as int,
        ),
{
    let ghost s0 = store@;
    let by = sort_tasks(tasks, false);
    let ghost bs = by@;
    proof {
        lemma_sort_members(tasks@, by_lct_key());
        assert forall|k: int| 0 <= k < bs.len() implies ef_task_ok(#[trigger] bs[k]) && bs[k].start.index < s0.len() by {
            let i = choose|i: int| 0 <= i < tasks@.len() && #[trigger] bs[k] == tasks@[i];
            assert(ef_task_ok(tasks@[i]));
        }
        assert(narrows(s0, s0));
        assert forall|k: int| 0 <= k < s0.len() implies #[trigger] s0[k] == s0[k] || exists|b: int| s0[k] == at_least(s0[k], b) by {}
    }
    let n = by.len();
    let mut changed = false;
    let mut energy: i128 = 0;
    let mut est_theta: i32 = i32::MAX;
    let mut theta_end: usize = 0;
    while theta_end < n
        invariant
            0 <= theta_end <= n,
            n == bs.len(),
            by@ == bs,
            n < 0x1_0000_0000_0000_0000,
            forall|k: int| 0 <= k < bs.len() ==> ef_task_ok(#[trigger] bs[k]) && bs[k].start.index < s0.len(),
            energy == theta_energy(bs, theta_end as int),
            est_theta == theta_est(bs, theta_end as int),
            0 <= energy <= theta_end * 0x4000_0000_0000_0000,
            store@.len() == s0.len(),
            narrows(s0, store@),
            changed == (store@ != s0),
            cut_from_below(s0, store@),
            s0 == old(store)@,
            bs == stable_sort_by(tasks@, by_lct_key()),
            n == tasks@.len(),
            store@ == est_rounds(s0, bs, capacity as int, theta_end as int),
        decreases n - theta_end,
    {
        let theta_task = by[theta_end];
        proof {
            assert(ef_task_ok(bs[theta_end as int]));
            assert(0 < theta_task.energy <= 0x4000_0000_0000_0000) by (nonlinear_arith)
                requires
                    theta_task.energy == theta_task.duration * theta_task.demand,
                    0 < theta_task.duration <= i32::MAX,
                    0 < theta_task.demand <= i32::MAX,
            ;
        }
        energy = energy + theta_task.energy as i128;
        if theta_task.est < est_theta {
            est_theta = theta_task.est;
        }
        proof {
            assert(energy == theta_energy(bs, theta_end + 1));
            assert(est_theta == theta_est(bs, theta_end + 1));
        }
        let lct_theta = theta_task.lct;
        let ghost t_round = store@;
        let available = residual_energy(capacity, est_theta, lct_theta, energy);
        proof {
            assert(-0x1_0000_0000_0000_0000 <= capacity * (lct_theta - est_theta) <= 0x1_0000_0000_0000_0000) by (nonlinear_arith)
                requires
                    -0x1_0000_0000 <= lct_theta - est_theta <= 0x1_0000_0000,
                    i32::MIN <= capacity <= i32::MAX,
            ;
        }
        if available >= 0 {
            let mut o: usize = theta_end + 1;
            while o < n
                invariant
                    theta_end < o <= n,
                    n == bs.len(),
                    by@ == bs,
                    forall|k: int| 0 <= k < bs.len() ==> ef_task_ok(#[trigger] bs[k]) && bs[k].start.index < s0.len(),
                    0 <= energy <= (theta_end + 1) * 0x4000_0000_0000_0000,
                    n < 0x1_0000_0000_0000_0000,
                    0 <= available <= 0x1_0000_0000_0000_0000,
                    available == capacity * (lct_theta - est_theta) - energy,
                    store@.len() == s0.len(),
                    narrows(s0, store@),
                    changed == (store@ != s0),
                    cut_from_below(s0, store@),
                    energy == theta_energy(bs, theta_end + 1),
                    est_theta == theta_est(bs, theta_end + 1),
                    lct_theta == bs[theta_end as int].lct,
                    store@ == est_outer(t_round, bs, capacity as int, theta_end as int, o as int),
                decreases n - o,
            {
                let outer = by[o];
                proof {
                    assert(ef_task_ok(bs[o as int]));
                    assert(0 < outer.energy <= 0x4000_0000_0000_0000) by (nonlinear_arith)
                        requires
                            outer.energy == outer.duration * outer.demand,
                            0 < outer.duration <= i32::MAX,
                            0 < outer.demand <= i32::MAX,
                    ;
                }
                let est_union = if est_theta < outer.est { est_theta } else { outer.est };
                let width = lct_theta as i128 - est_union as i128;
                proof {
                    assert(-0x1_0000_0000_0000_0000 <= capacity * width <= 0x1_0000_0000_0000_0000) by (nonlinear_arith)
                        requires
                            -0x1_0000_0000 <= width <= 0x1_0000_0000,
                            i32::MIN <= capacity <= i32::MAX,
                    ;
                }
                if energy + outer.energy as i128 > capacity as i128 * width {
                    let diff = outer.energy as i128 - available;
                    if diff > 0 {
                        let new_est = edge_finding_new_est(lct_theta, outer.duration, outer.demand, diff);
                        if new_est > outer.est {
                            let ghost t = store@;
                            let c = store.remove_below(outer.start, new_est);
                            proof {
                                lemma_narrow_step(s0, t, store@, changed, c);
                                lemma_cut_below_more(s0, t, outer.start.index as int, new_est as int);
                            }
                            changed = changed || c;
                        }
                    }
                }
                o = o + 1;
            }
        }
        theta_end = theta_end + 1;
    }
    changed
}

/// Edge finding on latest completions ([`lct_rounds`]), the mirror of
/// [`edge_finding_update_est`]: tasks taken by decreasing earliest start, and a later
/// task's end, then its start, cut from above by [`edge_finding_new_lct`]. Returns
/// whether a domain changed.
pub fn edge_finding_update_lct(store: &mut DomainStore, tasks: &Vec<EdgeFindingTask>, capacity: i32) -> (changed: bool)
    requires
        forall|k: int|
            0 <= k < tasks@.len() ==> ef_task_ok(#[trigger] tasks@[k]) && tasks@[k].start.index < old(store)@.len()
                && tasks@[k].end.index < old(store)@.len(),
    ensures
        narrows(old(store)@, final(store)@),
        changed == (final(store)@ != old(store)@),
        cut_from_above(old(store)@, final(store)@),
        final(store)@ == lct_rounds(
            old(store)@,
            stable_sort_by(tasks@, by_est_desc_key()),
            capacity as int,
            tasks@.len() as int,
        ),
{
    let ghost s0 = store@;
    let by = sort_tasks(tasks, true);
    let ghost bs = by@;
    proof {
        lemma_sort_members(tasks@, by_est_desc_key());
        assert forall|k: int| 0 <= k < bs.len() implies ef_task_ok(#[trigger] bs[k]) && bs[k].start.index < s0.len()
            && bs[k].end.index < s0.len() by {
            let i = choose|i: int| 0 <= i < tasks@.len() && #[trigger] bs[k] == tasks@[i];
            assert(ef_task_ok(tasks@[i]));
        }
        assert(narrows(s0, s0));
        assert forall|k: int| 0 <= k < s0.len() implies #[trigger] s0[k] == s0[k] || exists|b: int| s0[k] == at_most(s0[k], b) by {}
    }
    let n = by.len();
    let mut changed = false;
    let mut energy: i128 = 0;
    let mut lct_theta: i32 = i32::MIN;
    let mut theta_end: usize = 0;
    while theta_end < n
        invariant
            0 <= theta_end <= n,
            n == bs.len(),
            by@ == bs,
            n < 0x1_0000_0000_0000_0000,
            forall|k: int|
                0 <= k < bs.len() ==> ef_task_ok(#[trigger] bs[k]) && bs[k].start.index < s0.len() && bs[k].end.index < s0.len(),
            0 <= energy <= theta_end * 0x4000_0000_0000_0000,
            energy == theta_energy(bs, theta_end as int),
            lct_theta == theta_lct(bs, theta_end as int),
            store@.len() == s0.len(),
            narrows(s0, store@),
            changed == (store@ != s0),
            cut_from_above(s0, store@),
            s0 == old(store)@,
            bs == stable_sort_by(tasks@, by_est_desc_key()),
            n == tasks@.len(),
            store@ == lct_rounds(s0, bs, capacity as int, theta_end as int),
        decreases n - theta_end,
    {
        let theta_task = by[theta_end];
        proof {
            assert(ef_task_ok(bs[theta_end as int]));
            assert(0 < theta_task.energy <= 0x4000_0000_0000_0000) by (nonlinear_arith)
                requires
                    theta_task.energy == theta_task.duration * theta_task.demand,
                    0 < theta_task.duration <= i32::MAX,
                    0 < theta_task.demand <= i32::MAX,
            ;
        }
        energy = energy + theta_task.energy as i128;
        if theta_task.lct > lct_theta {
            lct_theta = theta_task.lct;
        }
        proof {
            assert(energy == theta_energy(bs, theta_end + 1));
            assert(lct_theta == theta_lct(bs, theta_end + 1));
        }
        let est_theta = theta_task.est;
        let ghost t_round = store@;
        let available = residual_energy(capacity, est_theta, lct_theta, energy);
        proof {
            assert(-0x1_0000_0000_0000_0000 <= capacity * (lct_theta - est_theta) <= 0x1_0000_0000_0000_0000) by (nonlinear_arith)
                requires
                    -0x1_0000_0000 <= lct_theta - est_theta <= 0x1_0000_0000,
                    i32::MIN <= capacity <= i32::MAX,
            ;
        }
        if available >= 0 {
            let mut o: usize = theta_end + 1;
            while o < n
                invariant
                    theta_end < o <= n,
                    n == bs.len(),
                    by@ == bs,
                    forall|k: int|
                        0 <= k < bs.len() ==> ef_task_ok(#[trigger] bs[k]) && bs[k].start.index < s0.len() && bs[k].end.index
                            < s0.len(),
                    0 <= energy <= (theta_end + 1) * 0x4000_0000_0000_0000,
                    n < 0x1_0000_0000_0000_0000,
                    0 <= available <= 0x1_0000_0000_0000_0000,
                    available == capacity * (lct_theta - est_theta) - energy,
                    store@.len() == s0.len(),
                    narrows(s0, store@),
                    changed == (store@ != s0),
                    cut_from_above(s0, store@),
                    energy == theta_energy(bs, theta_end + 1),
                    lct_theta == theta_lct(bs, theta_end + 1),
                    est_theta == bs[theta_end as int].est,
                    store@ == lct_outer(t_round, bs, capacity as int, theta_end as int, o as int),
                decreases n - o,
            {
                let outer = by[o];
                proof {
                    assert(ef_task_ok(bs[o as int]));
                    assert(0 < outer.energy <= 0x4000_0000_0000_0000) by (nonlinear_arith)
                        requires
                            outer.energy == outer.duration * outer.demand,
                            0 < outer.duration <= i32::MAX,
                            0 < outer.demand <= i32::MAX,
                    ;
                }
                let lct_union = if lct_theta > outer.lct { lct_theta } else { outer.lct };
                let width = lct_union as i128 - est_theta as i128;
                proof {
                    assert(-0x1_0000_0000_0000_0000 <= capacity * width <= 0x1_0000_0000_0000_0000) by (nonlinear_arith)
                        requires
                            -0x1_0000_0000 <= width <= 0x1_0000_0000,
                            i32::MIN <= capacity <= i32::MAX,
                    ;
                }
                if energy + outer.energy as i128 > capacity as i128 * width {
                    let diff = outer.energy as i128 - available;
                    if diff > 0 {
                        let new_lct = edge_finding_new_lct(est_theta, outer.duration, outer.demand, diff);
                        if new_lct < outer.lct {
                            let ghost t = store@;
                            let c = store.remove_above(outer.end, new_lct);
                            proof {
                                lemma_narrow_step(s0, t, store@, changed, c);
                                lemma_cut_above_more(s0, t, outer.end.index as int, new_lct as int);
                            }
                            changed = changed || c;
                        }
                        let new_lst = clamp_i32(new_lct as i64 - outer.duration as i64);
                        if (new_lst as i64) < outer.lct as i64 - outer.duration as i64 {
                            let ghost t = store@;
                            let c = store.remove_above(outer.start, new_lst);
                            proof {
                                lemma_narrow_step(s0, t, store@, changed, c);
                                lemma_cut_above_more(s0, t, outer.start.index as int, new_lst as int);
                            }
                            changed = changed || c;
                        }
                    }
                }
                o = o + 1;
            }
        }
        theta_end = theta_end + 1;
    }
    changed
}


/// Edge finding on earliest starts ([`est_rounds`]), then on latest completions
/// ([`lct_rounds`]), over the tasks read once before both
/// ([`collect_edge_finding_tasks`]); nothing with fewer than two such tasks. Returns
/// whether a domain changed.
pub fn propagate_edge_finding(store: &mut DomainStore, tasks: &Vec<TaskSpec>, capacity: i32) -> (changed: bool)
    requires
        tasks_in_range(tasks@, old(store)@.len()),
    ensures
        narrows(old(store)@, final(store)@),
        changed == (final(store)@ != old(store)@),
        ef_tasks_spec(old(store)@, tasks@).len() < 2 ==> final(store)@ == old(store)@,
        ({
            let snap = ef_tasks_spec(old(store)@, tasks@);
            snap.len() >= 2 ==> final(store)@ == lct_rounds(
                est_rounds(old(store)@, stable_sort_by(snap, by_lct_key()), capacity as int, snap.len() as int),
                stable_sort_by(snap, by_est_desc_key()),
                capacity as int,
                snap.len() as int,
            )
        }),
        exists|mid: Seq<Set<int>>| cut_from_below(old(store)@, mid) && cut_from_above(mid, final(store)@),
{
    let ghost s0 = store@;
    proof {
        assert(narrows(s0, s0));
        assert forall|k: int| 0 <= k < s0.len() implies #[trigger] s0[k] == s0[k] || exists|b: int| s0[k] == at_least(s0[k], b) by {}
        assert forall|k: int| 0 <= k < s0.len() implies #[trigger] s0[k] == s0[k] || exists|b: int| s0[k] == at_most(s0[k], b) by {}
        assert(cut_from_below(s0, s0) && cut_from_above(s0, s0));
    }
    let snapshot = collect_edge_finding_tasks(store, tasks);
    if snapshot.len() < 2 {
        return false;
    }
    let c1 = edge_finding_update_est(store, &snapshot, capacity);
    let ghost mid = store@;
    let c2 = edge_finding_update_lct(store, &snapshot, capacity);
    proof {
        lemma_narrow_step(s0, mid, store@, c1, c2);
    }
    c1 || c2
}

/// `k` is the start or the end variable of some task.
pub open spec fn task_var(tasks: Seq<TaskSpec>, k: int) -> bool {
    exists|i: int| 0 <= i < tasks.len() && ((#[trigger] tasks[i]).start.index == k || tasks[i].end.index == k)
}

/// Store after the starts of `t` whose run of `d` meets a time among the first `j`
/// points of `tb` with usage above `cap` are removed.
pub open spec fn tt_forbid(s: Seq<Set<int>>, t: TaskSpec, d: int, tb: Seq<TimePoint>, cap: int, j: int) -> Seq<Set<int>>
    decreases j,
{
    if j <= 0 {
        s
    } else {
        let u = tt_forbid(s, t, d, tb, cap, j - 1);
        let p = tb[j - 1];
        let si = t.start.index as int;
        if p.usage > cap {
            u.update(si, u[si].filter(|v: int| !meets(d, p.time as int, p.time + 1)(v)))
        } else {
            u
        }
    }
}

/// Store after a task with a fixed start or end, whose part from its earliest start
/// for its duration `d` ends by its latest end, is fixed to start there.
pub open spec fn tt_force(s: Seq<Set<int>>, t: TaskSpec, d: int) -> Seq<Set<int>> {
    let si = t.start.index as int;
    let ei = t.end.index as int;
    if s[si].is_empty() || s[ei].is_empty() || !(is_fixed(s[si]) || is_fixed(s[ei])) {
        s
    } else {
        let e = least(s[si]);
        let ect_v = clamp_i32_spec(e + d);
        let lct_v = greatest(s[ei]);
        let mend = if ect_v <= lct_v { ect_v } else { lct_v };
        if e < mend && mend - e >= d {
            cut_to(cut_to(s, si, e), t.end.index as int, clamp_i32_spec(e + d))
        } else {
            s
        }
    }
}

/// The time-table rule for one task, with its duration read on `s`.
pub open spec fn tt_task(s: Seq<Set<int>>, t: TaskSpec, tb: Seq<TimePoint>, cap: int) -> Seq<Set<int>> {
    let d = duration_min_spec(s, t);
    tt_force(tt_forbid(s, t, d, tb, cap, tb.len() as int), t, d)
}

/// The time-table rule for each task in turn, with the table `tb`.
pub open spec fn tt_result(s: Seq<Set<int>>, tasks: Seq<TaskSpec>, tb: Seq<TimePoint>, cap: int) -> Seq<Set<int>>
    decreases tasks.len(),
{
    if tasks.len() == 0 {
        s
    } else {
        tt_task(tt_result(s, tasks.drop_last(), tb, cap), tasks.last(), tb, cap)
    }
}

/// Time-table rule: at every time of the mandatory time table whose usage exceeds
/// `capacity`, each task's starts whose run meets that time are removed
/// ([`forbid_task_during`]); then a task whose start or end is fixed, and whose mandatory
/// part from its earliest start spans its whole duration, has its start fixed to that
/// part's start and its end to that start plus its duration. Nothing when no task has
/// a mandatory part or the table does not fit ([`table_fits`]). Returns whether a
/// domain changed.
pub fn propagate_time_table(store: &mut DomainStore, tasks: &Vec<TaskSpec>, capacity: i32) -> (changed: bool)
    requires
        tasks_in_range(tasks@, old(store)@.len()),
    ensures
        narrows(old(store)@, final(store)@),
        changed == (final(store)@ != old(store)@),
        forall|k: int| 0 <= k < old(store)@.len() && !task_var(tasks@, k) ==> #[trigger] final(store)@[k] == old(store)@[k],
        ({
            let ivs = intervals_of(contributions_spec(old(store)@, tasks@));
            &&& ivs.len() == 0 || !table_fits(ivs) ==> final(store)@ == old(store)@
            &&& ivs.len() > 0 && table_fits(ivs) ==> final(store)@ == tt_result(
                old(store)@,
                tasks@,
                table_spec(ivs),
                capacity as int,
            )
        }),
{
    let ghost s0 = store@;
    proof {
        assert(narrows(s0, s0));
    }
    let contributions = collect_mandatory_contributions(store, tasks);
    if contributions.len() == 0 {
        return false;
    }
    let intervals = mandatory_intervals(&contributions);
    let table = match time_table(&intervals) {
        Some(t) => t,
        None => {
            return false;
        },
    };
    let ghost tb = table@;
    let ghost hs = min_start(intervals@);
    let ghost he = max_end(intervals@);
    proof {
        lemma_min_start(intervals@);
        lemma_max_end(intervals@);
    }
    let mut changed = false;
    let mut i: usize = 0;
    while i < tasks.len()
        invariant
            0 <= i <= tasks@.len(),
            tasks_in_range(tasks@, s0.len()),
            table@ == tb,
            tb == table_spec(intervals@),
            hs == min_start(intervals@),
            he == max_end(intervals@),
            i32::MIN <= hs,
            he <= i32::MAX,
            store@.len() == s0.len(),
            narrows(s0, store@),
            changed == (store@ != s0),
            forall|k: int| 0 <= k < s0.len() && !task_var(tasks@, k) ==> #[trigger] store@[k] == s0[k],
            store@ == tt_result(s0, tasks@.take(i as int), tb, capacity as int),
        decreases tasks@.len() - i,
    {
        let task = tasks[i];
        proof {
            assert(task_in_range(tasks@[i as int], s0.len()));
            assert(tasks@.take(i + 1).drop_last() =~= tasks@.take(i as int));
            assert(tasks@.take(i + 1).last() == task);
        }
        let ghost t_task = store@;
        let duration = duration_min(store, task);
        let mut j: usize = 0;
        while j < table.len()
            invariant
                0 <= j <= table@.len(),
                i < tasks@.len(),
                task == tasks@[i as int],
                tasks_in_range(tasks@, s0.len()),
                table@ == tb,
                tb == table_spec(intervals@),
                hs == min_start(intervals@),
                he == max_end(intervals@),
                i32::MIN <= hs,
                he <= i32::MAX,
                store@.len() == s0.len(),
                narrows(s0, store@),
                changed == (store@ != s0),
                forall|k: int| 0 <= k < s0.len() && !task_var(tasks@, k) ==> #[trigger] store@[k] == s0[k],
                duration == duration_min_spec(t_task, task),
                store@ == tt_forbid(t_task, task, duration as int, tb, capacity as int, j as int),
            decreases table@.len() - j,
        {
            let point = table[j];
            if point.usage > capacity {
                proof {
                    assert(tb[j as int].time == (hs + j) as i32);
                    assert(hs + j < he);
                }
                let ghost t = store@;
                let c = forbid_task_during(store, task, duration, point.time, point.time + 1);
                proof {
                    lemma_narrow_step(s0, t, store@, changed, c);
                    assert forall|k: int| 0 <= k < s0.len() && !task_var(tasks@, k) implies #[trigger] store@[k] == s0[k] by {
                        if k == task.start.index {
                            assert(tasks@[i as int].start.index == k);
                        }
                    }
                }
                changed = changed || c;
            }
            j = j + 1;
        }
        let ghost t_forbid = store@;
        match (store.min(task.start), store.max(task.end)) {
            (Some(start_min), Some(end_max)) => {
                proof {
                    lemma_least_is(t_forbid[task.start.index as int], start_min as int);
                    lemma_greatest_is(t_forbid[task.end.index as int], end_max as int);
                }
                let forced = fixed_of(store, task.start).is_some() || fixed_of(store, task.end).is_some();
                if forced {
                    let task_ect = clamp_i32(est(start_min) as i64 + duration as i64);
                    match mandatory_interval(est(start_min), task_ect, lct(end_max)) {
                        Some(mandatory) => {
                            if mandatory.end as i64 - mandatory.start as i64 >= duration as i64 {
                                let fixed_start = mandatory.start;
                                let fixed_end = clamp_i32(mandatory.start as i64 + duration as i64);
                                let ghost t = store@;
                                let c1 = tighten_to_point(store, task.start, fixed_start);
                                let ghost u = store@;
                                let c2 = tighten_to_point(store, task.end, fixed_end);
                                proof {
                                    lemma_narrow_step(s0, t, u, changed, c1);
                                    lemma_narrow_step(s0, u, store@, changed || c1, c2);
                                    assert forall|k: int| 0 <= k < s0.len() && !task_var(tasks@, k) implies #[trigger] store@[k]
                                        == s0[k] by {
                                        if k == task.start.index || k == task.end.index {
                                            assert(tasks@[i as int].start.index == task.start.index);
                                        }
                                    }
                                }
                                changed = changed || c1 || c2;
                            }
                        },
                        None => {},
                    }
                }
            },
            _ => {},
        }
        proof {
            assert(store@ == tt_force(t_forbid, task, duration as int));
            assert(store@ == tt_task(t_task, task, tb, capacity as int));
        }
        i = i + 1;
    }
    proof {
        assert(tasks@.take(tasks@.len() as int) =~= tasks@);
    }
    changed
}

/// The capacity's bounds: the fixed capacity twice, or the least and greatest values of
/// the capacity variable (none when its domain is empty).
pub open spec fn capacity_bounds_spec(s: Seq<Set<int>>, fixed: i32, capacity_var: Option<VariableId>) -> Option<(i32, i32)> {
    match capacity_var {
        Some(c) => if s[c.index as int].is_empty() {
            None
        } else {
            Some((least(s[c.index as int]) as i32, greatest(s[c.index as int]) as i32))
        },
        None => Some((fixed, fixed)),
    }
}

/// Reads the capacity's bounds ([`capacity_bounds_spec`]).
fn capacity_bounds(store: &DomainStore, fixed: i32, capacity_var: Option<VariableId>) -> (r: Option<(i32, i32)>)
    requires
        capacity_var matches Some(c) ==> c.index < store@.len(),
    ensures
        r == capacity_bounds_spec(store@, fixed, capacity_var),
{
    match capacity_var {
        Some(var) => match (store.min(var), store.max(var)) {
            (Some(lo), Some(hi)) => {
                proof {
                    lemma_least_is(store@[var.index as int], lo as int);
                    lemma_greatest_is(store@[var.index as int], hi as int);
                }
                Some((lo, hi))
            },
            _ => None,
        },
        None => Some((fixed, fixed)),
    }
}

/// The mandatory parts' demands exceed `capacity` at some time of their horizon.
pub open spec fn mandatory_overload(s: Seq<Set<int>>, tasks: Seq<TaskSpec>, capacity: int) -> bool {
    let cs = contributions_spec(s, tasks);
    cs.len() > 0 && exists|t: int| overloaded_at(intervals_of(cs), capacity, t)
}

/// Some time of the mandatory time table has usage above `capacity`.
pub open spec fn table_excess(s: Seq<Set<int>>, tasks: Seq<TaskSpec>, capacity: int) -> bool {
    let cs = contributions_spec(s, tasks);
    let ivs = intervals_of(cs);
    cs.len() > 0 && table_fits(ivs) && exists|i: int| 0 <= i < table_spec(ivs).len() && table_spec(ivs)[i].usage > capacity
}

/// Some prefix of the tasks by latest completion overloads the resource.
pub open spec fn energy_overload(s: Seq<Set<int>>, tasks: Seq<TaskSpec>, capacity: int) -> bool {
    exists|m: int| prefix_overloaded(by_lct_spec(s, tasks), capacity, m)
}

/// A conflict the cumulative rules detect on `s`.
pub open spec fn cumulative_conflict(s: Seq<Set<int>>, tasks: Seq<TaskSpec>, capacity: int) -> bool {
    mandatory_overload(s, tasks, capacity) || table_excess(s, tasks, capacity) || energy_overload(s, tasks, capacity)
}

/// The literals of the first conflict found among a mandatory overload, a time-table
/// excess and an energy overload ([`cumulative_conflict`]).
pub fn cumulative_conflict_literals(store: &DomainStore, tasks: &Vec<TaskSpec>, capacity: i32) -> (r: Option<
    Vec<(VariableId, i32)>,
>)
    requires
        tasks_in_range(tasks@, store@.len()),
    ensures
        r is Some <==> cumulative_conflict(store@, tasks@, capacity as int),
{
    match mandatory_overload_literals(store, tasks, capacity) {
        Some(l) => {
            return Some(l);
        },
        None => {},
    }
    match time_table_excess_literals(store, tasks, capacity) {
        Some(l) => {
            return Some(l);
        },
        None => {},
    }
    energy_overload_literals(store, tasks, capacity)
}

/// Some task's start or end domain is empty.
pub open spec fn some_task_empty(s: Seq<Set<int>>, tasks: Seq<TaskSpec>) -> bool {
    exists|i: int| 0 <= i < tasks.len() && (s[(#[trigger] tasks[i]).start.index as int].is_empty() || s[tasks[i].end.index as int].is_empty())
}

fn any_task_empty(store: &DomainStore, tasks: &Vec<TaskSpec>) -> (r: bool)
    requires
        tasks_in_range(tasks@, store@.len()),
    ensures
        r == some_task_empty(store@, tasks@),
{
    let mut i: usize = 0;
    while i < tasks.len()
        invariant
            0 <= i <= tasks@.len(),
            tasks_in_range(tasks@, store@.len()),
            forall|k: int|
                0 <= k < i ==> !store@[(#[trigger] tasks@[k]).start.index as int].is_empty() && !store@[tasks@[k].end.index as int].is_empty(),
        decreases tasks@.len() - i,
    {
        proof {
            assert(task_in_range(tasks@[i as int], store@.len()));
        }
        if store.is_empty(tasks[i].start) || store.is_empty(tasks[i].end) {
            return true;
        }
        i = i + 1;
    }
    false
}

/// Propagates a cumulative resource: tasks with a demand share a resource of a fixed
/// or variable capacity.
pub struct CumulativePropagator {
    /// The variables of the tasks and of the capacity, in order.
    pub watched: Vec<VariableId>,
    /// The tasks.
    pub tasks: Vec<TaskSpec>,
    /// Fixed capacity, used when `capacity_var` is `None`.
    pub capacity: i32,
    /// Variable capacity, read by its least and greatest values.
    pub capacity_var: Option<VariableId>,
}

/// The largest capacity: the fixed one, or the greatest value of the capacity variable.
pub open spec fn cap_max_spec(s: Seq<Set<int>>, p: CumulativePropagator) -> int {
    match capacity_bounds_spec(s, p.capacity, p.capacity_var) {
        Some(b) => b.1 as int,
        None => 0,
    }
}

/// The smallest capacity: the fixed one, or the least value of the capacity variable.
pub open spec fn cap_min_spec(s: Seq<Set<int>>, p: CumulativePropagator) -> int {
    match capacity_bounds_spec(s, p.capacity, p.capacity_var) {
        Some(b) => b.0 as int,
        None => 0,
    }
}

/// The time-table rule over the whole store ([`propagate_time_table`]).
pub open spec fn tt_step(s: Seq<Set<int>>, tasks: Seq<TaskSpec>, cap: int) -> Seq<Set<int>> {
    let ivs = intervals_of(contributions_spec(s, tasks));
    if ivs.len() > 0 && table_fits(ivs) {
        tt_result(s, tasks, table_spec(ivs), cap)
    } else {
        s
    }
}

/// Edge finding over the whole store ([`propagate_edge_finding`]).
pub open spec fn ef_step(s: Seq<Set<int>>, tasks: Seq<TaskSpec>, cap: int) -> Seq<Set<int>> {
    let snap = ef_tasks_spec(s, tasks);
    if snap.len() >= 2 {
        lct_rounds(
            est_rounds(s, stable_sort_by(snap, by_lct_key()), cap, snap.len() as int),
            stable_sort_by(snap, by_est_desc_key()),
            cap,
            snap.len() as int,
        )
    } else {
        s
    }
}

/// Raising the capacity variable to the peak mandatory usage when it exceeds
/// `current_min` ([`tighten_capacity_lower_bound`]).
pub open spec fn cap_step(s: Seq<Set<int>>, tasks: Seq<TaskSpec>, capacity_var: Option<VariableId>, current_min: int) -> Seq<
    Set<int>,
> {
    match capacity_var {
        Some(c) => {
            let ivs = intervals_of(contributions_spec(s, tasks));
            if ivs.len() > 0 && table_fits(ivs) && peak_spec(table_spec(ivs)) > current_min {
                cut_lo(s, c.index as int, peak_spec(table_spec(ivs)))
            } else {
                s
            }
        },
        None => s,
    }
}

/// One round of the cumulative rules on `s`: precedence, time table and edge finding
/// against the largest capacity `cap_max`, then the capacity variable raised to the peak
/// mandatory usage above `cap_min`.
pub open spec fn cumulative_round(s: Seq<Set<int>>, p: CumulativePropagator, cap_min: int, cap_max: int) -> Seq<Set<int>> {
    let tasks = p.tasks@;
    cap_step(ef_step(tt_step(precedence_result(s, tasks), tasks, cap_max), tasks, cap_max), tasks, p.capacity_var, cap_min)
}

/// `k` rounds of the cumulative rules from `s`.
pub open spec fn cumulative_rounds(s: Seq<Set<int>>, p: CumulativePropagator, cap_min: int, cap_max: int, k: nat) -> Seq<
    Set<int>,
>
    decreases k,
{
    if k == 0 {
        s
    } else {
        cumulative_round(cumulative_rounds(s, p, cap_min, cap_max, (k - 1) as nat), p, cap_min, cap_max)
    }
}

/// Under `sigma`, the tasks respect capacity `capacity` and no task has a negative demand.
pub open spec fn cumulative_ok(tasks: Seq<TaskSpec>, capacity: int) -> spec_fn(Seq<int>) -> bool {
    |sigma: Seq<int>|
        cumulative_holds(tasks, capacity)(sigma) && forall|i: int| 0 <= i < tasks.len() ==> task_demand(#[trigger] tasks[i], sigma) >= 0
}

impl CumulativePropagator {
    /// Creates a propagator over `tasks` with the fixed resource `capacity`.
    pub fn new(tasks: Vec<TaskSpec>, capacity: i32) -> (p: Self)
        ensures
            p.tasks@ == tasks@,
            p.capacity == capacity,
            p.capacity_var is None,
            p.watched@ == watch_spec(tasks@, None),
    {
        let watched = watch_list(&tasks, None);
        CumulativePropagator { watched, tasks, capacity, capacity_var: None }
    }

    /// Creates a propagator over `tasks` whose capacity is the variable `capacity`.
    pub fn with_capacity_var(tasks: Vec<TaskSpec>, capacity: VariableId) -> (p: Self)
        ensures
            p.tasks@ == tasks@,
            p.capacity == 0,
            p.capacity_var == Some(capacity),
            p.watched@ == watch_spec(tasks@, Some(capacity)),
    {
        let watched = watch_list(&tasks, Some(capacity));
        CumulativePropagator { watched, tasks, capacity: 0, capacity_var: Some(capacity) }
    }

    /// The variables whose domains this propagator reads.
    pub fn watched_variables(&self) -> (w: &Vec<VariableId>)
        ensures
            w@ == self.watched@,
    {
        &self.watched
    }

    /// Scheduling priority: propagators with a lower number run first.
    pub fn priority(&self) -> (p: u32)
        ensures
            p == 25,
    {
        25
    }

    /// Fails when the capacity variable's domain is empty. Otherwise repeats rounds until
    /// one changes nothing: a round fails on a detected conflict against the largest
    /// capacity ([`cumulative_conflict`]), else applies the precedence, time-table and
    /// edge-finding rules and raises the capacity variable to the peak mandatory usage.
    /// Fails at the end when a task's start or end domain, or the capacity variable's
    /// domain, is empty. The returned store is a number of rounds
    /// ([`cumulative_rounds`]) from the input, none of them on a store with a conflict,
    /// and one more round changes it no more unless a conflict stopped it. A mandatory
    /// overload of the input is answered with a failure, and no assignment of the input
    /// respects the largest capacity then ([`law_mandatory_overload_unsat`]).
    pub fn propagate(&mut self, store: &mut DomainStore) -> (status: PropagationStatus)
        requires
            tasks_in_range(old(self).tasks@, old(store)@.len()),
            old(self).capacity_var matches Some(c) ==> c.index < old(store)@.len(),
        ensures
            *final(self) == *old(self),
            narrows(old(store)@, final(store)@),
            capacity_bounds_spec(old(store)@, old(self).capacity, old(self).capacity_var) is None ==> final(store)@ == old(
                store,
            )@ && status == PropagationStatus::Failure,
            status == PropagationStatus::Failure ==> {
                ||| capacity_bounds_spec(old(store)@, old(self).capacity, old(self).capacity_var) is None
                ||| cumulative_conflict(final(store)@, old(self).tasks@, cap_max_spec(old(store)@, *old(self)))
                ||| some_task_empty(final(store)@, old(self).tasks@)
                ||| (old(self).capacity_var matches Some(c) && final(store)@[c.index as int].is_empty())
            },
            status != PropagationStatus::Failure ==> {
                &&& !cumulative_conflict(final(store)@, old(self).tasks@, cap_max_spec(old(store)@, *old(self)))
                &&& precedence_result(final(store)@, old(self).tasks@) == final(store)@
                &&& !some_task_empty(final(store)@, old(self).tasks@)
                &&& (old(self).capacity_var matches Some(c) ==> !final(store)@[c.index as int].is_empty())
                &&& (status == PropagationStatus::OkChanged) == (final(store)@ != old(store)@)
            },
            capacity_bounds_spec(old(store)@, old(self).capacity, old(self).capacity_var) is Some ==> exists|k: nat|
                {
                    &&& final(store)@ == #[trigger] cumulative_rounds(old(store)@, *old(self), cap_min_spec(old(store)@, *old(self)), cap_max_spec(old(store)@, *old(self)), k)
                    &&& forall|j: nat|
                        j < k ==> !cumulative_conflict(
                            #[trigger] cumulative_rounds(old(store)@, *old(self), cap_min_spec(old(store)@, *old(self)), cap_max_spec(old(store)@, *old(self)), j),
                            old(self).tasks@,
                            cap_max_spec(old(store)@, *old(self)),
                        )
                    &&& status != PropagationStatus::Failure ==> cumulative_round(final(store)@, *old(self), cap_min_spec(old(store)@, *old(self)), cap_max_spec(old(store)@, *old(self)))
                        == final(store)@
                    &&& status == PropagationStatus::Failure ==> cumulative_conflict(final(store)@, old(self).tasks@, cap_max_spec(old(store)@, *old(self)))
                        || cumulative_round(final(store)@, *old(self), cap_min_spec(old(store)@, *old(self)), cap_max_spec(old(store)@, *old(self))) == final(store)@
                },
            capacity_bounds_spec(old(store)@, old(self).capacity, old(self).capacity_var) is Some && (mandatory_overload(
                old(store)@,
                old(self).tasks@,
                cap_max_spec(old(store)@, *old(self)),
            ) || table_excess(old(store)@, old(self).tasks@, cap_max_spec(old(store)@, *old(self)))) ==> {
                &&& status == PropagationStatus::Failure
                &&& final(store)@ == old(store)@
                &&& !has_solution(old(store)@, cumulative_ok(old(self).tasks@, cap_max_spec(old(store)@, *old(self))))
            },
    {
        let ghost s0 = store@;
        let ghost tasks = self.tasks@;
        proof {
            assert(narrows(s0, s0));
        }
        let (cap_min, cap_max) = match capacity_bounds(store, self.capacity, self.capacity_var) {
            Some(b) => b,
            None => {
                return PropagationStatus::Failure;
            },
        };
        let mut changed = false;
        let ghost mut k: nat = 0;
        let ghost cmin = cap_min_spec(s0, *self);
        let ghost cmax = cap_max_spec(s0, *self);
        store.assert_in_range();
        proof {
            if mandatory_overload(s0, tasks, cmax) || table_excess(s0, tasks, cmax) {
                if has_solution(s0, cumulative_ok(tasks, cmax)) {
                    let sigma = choose|sigma: Seq<int>| assignment_in(s0, sigma) && #[trigger] cumulative_ok(tasks, cmax)(sigma);
                    law_mandatory_overload_unsat(s0, tasks, cmax, sigma);
                }
            }
        }
        loop
            invariant_except_break
                tasks == self.tasks@,
                cmin == cap_min_spec(s0, *self),
                cmax == cap_max_spec(s0, *self),
                cap_min == cmin,
                store@ == cumulative_rounds(s0, *self, cmin, cmax, k),
                forall|j: nat| j < k ==> !cumulative_conflict(#[trigger] cumulative_rounds(s0, *self, cmin, cmax, j), tasks, cmax),
                k == 0 ==> store@ == s0,
                mandatory_overload(s0, tasks, cmax) || table_excess(s0, tasks, cmax) ==> !has_solution(
                    s0,
                    cumulative_ok(tasks, cmax),
                ),
                tasks == old(self).tasks@,
                *self == *old(self),
                s0 == old(store)@,
                tasks_in_range(tasks, s0.len()),
                self.capacity_var matches Some(c) ==> c.index < s0.len(),
                cap_max == cap_max_spec(s0, *self),
                capacity_bounds_spec(s0, self.capacity, self.capacity_var) is Some,
                store@.len() == s0.len(),
                narrows(s0, store@),
                changed == (store@ != s0),
            ensures
                *self == *old(self),
                narrows(s0, store@),
                changed == (store@ != s0),
                !cumulative_conflict(store@, tasks, cap_max as int),
                precedence_result(store@, tasks) == store@,
                store@ == cumulative_rounds(s0, *self, cmin, cmax, k),
                forall|j: nat| j < k ==> !cumulative_conflict(#[trigger] cumulative_rounds(s0, *self, cmin, cmax, j), tasks, cmax),
                cumulative_round(store@, *self, cmin, cmax) == store@,
            decreases total_size(store@),
        {
            store.assert_in_range();
            if cumulative_conflict_literals(store, &self.tasks, cap_max).is_some() {
                proof {
                    assert(cumulative_rounds(s0, *self, cmin, cmax, 0) == s0);
                    if k > 0 {
                        assert(!cumulative_conflict(cumulative_rounds(s0, *self, cmin, cmax, 0), tasks, cmax));
                    }
                }
                return PropagationStatus::Failure;
            }
            let ghost start = store@;
            let c1 = propagate_precedence(store, &self.tasks);
            let ghost t1 = store@;
            let c2 = propagate_time_table(store, &self.tasks, cap_max);
            let ghost t2 = store@;
            let c3 = propagate_edge_finding(store, &self.tasks, cap_max);
            let ghost t3 = store@;
            let c4 = tighten_capacity_lower_bound(store, &self.tasks, self.capacity_var, cap_min);
            proof {
                assert(t1 == precedence_result(start, tasks));
                assert(t2 == tt_step(t1, tasks, cmax));
                assert(t3 == ef_step(t2, tasks, cmax));
                assert(store@ == cap_step(t3, tasks, self.capacity_var, cmin));
                assert(store@ == cumulative_round(start, *self, cmin, cmax));
                assert forall|j: nat| j < k + 1 implies !cumulative_conflict(
                    #[trigger] cumulative_rounds(s0, *self, cmin, cmax, j),
                    tasks,
                    cmax,
                ) by {
                    if j == k {
                        assert(cumulative_rounds(s0, *self, cmin, cmax, j) == start);
                    }
                }
                k = k + 1;
                assert(store@ == cumulative_rounds(s0, *self, cmin, cmax, k));
                lemma_narrow_step(start, t1, t2, c1, c2);
                lemma_narrow_step(start, t2, t3, c1 || c2, c3);
                lemma_narrow_step(start, t3, store@, c1 || c2 || c3, c4);
                lemma_narrow_step(s0, start, store@, changed, c1 || c2 || c3 || c4);
            }
            let round_changed = c1 || c2 || c3 || c4;
            changed = changed || round_changed;
            if !round_changed {
                proof {
                    assert(t1 == start);
                    assert(store@ == start);
                    k = (k - 1) as nat;
                    assert(store@ == cumulative_rounds(s0, *self, cmin, cmax, k));
                }
                break;
            }
            proof {
                lemma_total_size_narrows(start, store@);
            }
        }
        proof {
            assert(cumulative_rounds(s0, *self, cmin, cmax, 0) == s0);
            if k > 0 {
                assert(!cumulative_conflict(cumulative_rounds(s0, *self, cmin, cmax, 0), tasks, cmax));
            }
            assert(!cumulative_conflict(s0, tasks, cmax));
        }
        if any_task_empty(store, &self.tasks) {
            return PropagationStatus::Failure;
        }
        match self.capacity_var {
            Some(c) => {
                if store.is_empty(c) {
                    return PropagationStatus::Failure;
                }
            },
            None => {},
        }
        if changed {
            PropagationStatus::OkChanged
        } else {
            PropagationStatus::OkNoChange
        }
    }
}


/// The duration of `t` under `sigma`: its duration variable's value, or its fixed
/// duration.
pub open spec fn task_duration(t: TaskSpec, sigma: Seq<int>) -> int {
    match t.duration_var {
        Some(v) => sigma[v.index as int],
        None => t.duration as int,
    }
}

/// Under `sigma`, every task ends at its start plus its duration.
pub open spec fn ends_match(tasks: Seq<TaskSpec>) -> spec_fn(Seq<int>) -> bool {
    |sigma: Seq<int>|
        forall|i: int|
            0 <= i < tasks.len() ==> sigma[(#[trigger] tasks[i]).end.index as int] == sigma[tasks[i].start.index as int]
                + task_duration(tasks[i], sigma)
}

/// Every task's duration variable, where it has one, is fixed in `s`.
pub open spec fn durations_fixed(s: Seq<Set<int>>, tasks: Seq<TaskSpec>) -> bool {
    forall|i: int| 0 <= i < tasks.len() ==> ((#[trigger] tasks[i]).duration_var matches Some(v) ==> is_fixed(s[v.index as int]))
}

proof fn lemma_precedence_step_keeps(s: Seq<Set<int>>, t: TaskSpec, sigma: Seq<int>)
    requires
        domains_ok(s),
        task_in_range(t, s.len()),
        assignment_in(s, sigma),
        sigma[t.end.index as int] == sigma[t.start.index as int] + task_duration(t, sigma),
        t.duration_var matches Some(v) ==> is_fixed(s[v.index as int]),
    ensures
        assignment_in(precedence_step(s, t), sigma),
        narrows(s, precedence_step(s, t)),
        domains_ok(precedence_step(s, t)),
{
    let si = t.start.index as int;
    let ei = t.end.index as int;
    let d = duration_min_spec(s, t);
    match t.duration_var {
        Some(v) => {
            let x = choose|x: int| s[v.index as int] == set![x];
            assert(s[v.index as int].contains(sigma[v.index as int]));
            assert(set![x].contains(x));
            lemma_least_is(set![x], x);
        },
        None => {},
    }
    assert(d == task_duration(t, sigma));
    assert(s[si].contains(sigma[si]) && s[ei].contains(sigma[ei]));
    assert(in_i32_range(s[si]) && s[si].finite() && in_i32_range(s[ei]) && s[ei].finite());
    crate::domain::lemma_member_in_bounds(s[si], sigma[si]);
    crate::domain::lemma_member_in_bounds(s[ei], sigma[ei]);
    let s1 = bounds_step(s, t, d);
    assert(s1[si].contains(sigma[si]) && s1[ei].contains(sigma[ei]));
    assert(assignment_in(s1, sigma));
    let s2 = fixed_start_step(s1, t, d);
    if is_fixed(s1[si]) {
        let x = choose|x: int| s1[si] == set![x];
        assert(set![x].contains(x));
        lemma_least_is(set![x], x);
        assert(sigma[si] == x);
    }
    assert(s2[ei].contains(sigma[ei]));
    assert(assignment_in(s2, sigma));
    let s3 = fixed_end_step(s2, t, d);
    if is_fixed(s2[ei]) {
        let x = choose|x: int| s2[ei] == set![x];
        assert(set![x].contains(x));
        lemma_least_is(set![x], x);
        assert(sigma[ei] == x);
    }
    assert(s3[si].contains(sigma[si]));
    assert(assignment_in(s3, sigma));
    assert(s3 == precedence_step(s, t));
    assert forall|k: int| 0 <= k < s.len() implies (#[trigger] s3[k]).subset_of(s[k]) by {}
    assert forall|k: int| 0 <= k < s3.len() implies in_i32_range(#[trigger] s3[k]) && s3[k].finite() by {
        assert(s3[k].subset_of(s[k]));
        assert(in_i32_range(s[k]) && s[k].finite());
        vstd::set_lib::lemma_len_subset(s3[k], s[k]);
    }
}

proof fn lemma_precedence_keeps_one(s: Seq<Set<int>>, tasks: Seq<TaskSpec>, sigma: Seq<int>)
    requires
        domains_ok(s),
        tasks_in_range(tasks, s.len()),
        durations_fixed(s, tasks),
        assignment_in(s, sigma),
        ends_match(tasks)(sigma),
    ensures
        assignment_in(precedence_result(s, tasks), sigma),
        narrows(s, precedence_result(s, tasks)),
        domains_ok(precedence_result(s, tasks)),
    decreases tasks.len(),
{
    if tasks.len() == 0 {
        assert(narrows(s, s));
    } else {
        let d = tasks.drop_last();
        assert forall|i: int| 0 <= i < d.len() implies task_in_range(#[trigger] d[i], s.len()) by {
            assert(d[i] == tasks[i]);
        }
        assert forall|i: int| 0 <= i < d.len() implies ((#[trigger] d[i]).duration_var matches Some(v) ==> is_fixed(
            s[v.index as int],
        )) by {
            assert(d[i] == tasks[i]);
        }
        assert forall|i: int| 0 <= i < d.len() implies sigma[(#[trigger] d[i]).end.index as int] == sigma[d[i].start.index as int]
            + task_duration(d[i], sigma) by {
            assert(d[i] == tasks[i]);
        }
        lemma_precedence_keeps_one(s, d, sigma);
        let cur = precedence_result(s, d);
        let t = tasks.last();
        assert(t == tasks[tasks.len() - 1]);
        assert(task_in_range(t, s.len()));
        match t.duration_var {
            Some(v) => {
                let x = choose|x: int| s[v.index as int] == set![x];
                assert(cur[v.index as int].subset_of(s[v.index as int]));
                assert(cur[v.index as int].contains(sigma[v.index as int]));
                assert(set![x].contains(x));
                assert(cur[v.index as int] =~= set![x]);
            },
            None => {},
        }
        lemma_precedence_step_keeps(cur, t, sigma);
        crate::domain::lemma_narrows_trans(s, cur, precedence_result(s, tasks));
    }
}

/// The precedence rules keep every assignment under which each task ends at its start
/// plus its duration, where every duration variable is fixed.
pub proof fn law_precedence_keeps(s: Seq<Set<int>>, tasks: Seq<TaskSpec>)
    requires
        domains_ok(s),
        tasks_in_range(tasks, s.len()),
        durations_fixed(s, tasks),
    ensures
        keeps(s, precedence_result(s, tasks), ends_match(tasks)),
{
    assert forall|sigma: Seq<int>| assignment_in(s, sigma) && #[trigger] ends_match(tasks)(sigma) implies assignment_in(
        precedence_result(s, tasks),
        sigma,
    ) by {
        lemma_precedence_keeps_one(s, tasks, sigma);
    }
}


/// The demand of `t` under `sigma`: its demand variable's value, or its fixed demand.
pub open spec fn task_demand(t: TaskSpec, sigma: Seq<int>) -> int {
    match t.demand_var {
        Some(v) => sigma[v.index as int],
        None => t.demand as int,
    }
}

/// Under `sigma`, `t` runs at `time`: from its start up to, not including, its end.
pub open spec fn runs_at(t: TaskSpec, sigma: Seq<int>, time: int) -> bool {
    sigma[t.start.index as int] <= time < sigma[t.end.index as int]
}

/// Total demand under `sigma` of the tasks running at `time`.
pub open spec fn usage(tasks: Seq<TaskSpec>, sigma: Seq<int>, time: int) -> int
    decreases tasks.len(),
{
    if tasks.len() == 0 {
        0
    } else {
        usage(tasks.drop_last(), sigma, time) + if runs_at(tasks.last(), sigma, time) {
            task_demand(tasks.last(), sigma)
        } else {
            0
        }
    }
}

/// The cumulative constraint at capacity `capacity`: every task ends at its start plus
/// its duration, and at no time do the demands of the running tasks exceed `capacity`.
pub open spec fn cumulative_holds(tasks: Seq<TaskSpec>, capacity: int) -> spec_fn(Seq<int>) -> bool {
    |sigma: Seq<int>| ends_match(tasks)(sigma) && forall|time: int| #[trigger] usage(tasks, sigma, time) <= capacity
}

proof fn lemma_contributions_within_usage(
    s: Seq<Set<int>>,
    tasks: Seq<TaskSpec>,
    sigma: Seq<int>,
    hs: int,
    he: int,
    time: int,
)
    requires
        domains_ok(s),
        tasks_in_range(tasks, s.len()),
        assignment_in(s, sigma),
        ends_match(tasks)(sigma),
        forall|i: int| 0 <= i < tasks.len() ==> task_demand(#[trigger] tasks[i], sigma) >= 0,
    ensures
        load(intervals_of(contributions_spec(s, tasks)), hs, he, time) <= usage(tasks, sigma, time),
    decreases tasks.len(),
{
    if tasks.len() > 0 {
        let d = tasks.drop_last();
        let t = tasks.last();
        assert(t == tasks[tasks.len() - 1]);
        assert forall|i: int| 0 <= i < d.len() implies task_in_range(#[trigger] d[i], s.len()) by {
            assert(d[i] == tasks[i]);
        }
        assert forall|i: int| 0 <= i < d.len() implies sigma[(#[trigger] d[i]).end.index as int] == sigma[d[i].start.index as int]
            + task_duration(d[i], sigma) by {
            assert(d[i] == tasks[i]);
        }
        assert forall|i: int| 0 <= i < d.len() implies task_demand(#[trigger] d[i], sigma) >= 0 by {
            assert(d[i] == tasks[i]);
        }
        lemma_contributions_within_usage(s, d, sigma, hs, he, time);
        let cs = contributions_spec(s, d);
        assert(task_in_range(t, s.len()));
        assert(sigma[t.end.index as int] == sigma[t.start.index as int] + task_duration(t, sigma));
        assert(task_demand(t, sigma) >= 0);
        match contribution_of(s, t) {
            Some(c) => {
                assert(intervals_of(cs.push(c)) =~= intervals_of(cs).push((c.interval, c.demand)));
                let si = t.start.index as int;
                let ei = t.end.index as int;
                assert(s[si].contains(sigma[si]) && s[ei].contains(sigma[ei]));
                assert(in_i32_range(s[si]) && in_i32_range(s[ei]));
                match t.duration_var {
                    Some(v) => {
                        assert(s[v.index as int].contains(sigma[v.index as int]));
                        assert(in_i32_range(s[v.index as int]) && s[v.index as int].finite());
                        crate::domain::lemma_member_in_bounds(s[v.index as int], sigma[v.index as int]);
                    },
                    None => {},
                }
                match t.demand_var {
                    Some(v) => {
                        assert(s[v.index as int].contains(sigma[v.index as int]));
                        assert(in_i32_range(s[v.index as int]) && s[v.index as int].finite());
                        crate::domain::lemma_member_in_bounds(s[v.index as int], sigma[v.index as int]);
                        crate::domain::lemma_least_exists(s[v.index as int]);
                    },
                    None => {},
                }
                assert(duration_min_spec(s, t) <= task_duration(t, sigma));
                assert(demand_min_spec(s, t) <= task_demand(t, sigma));
                if is_fixed(s[si]) {
                    let x = choose|x: int| s[si] == set![x];
                    assert(set![x].contains(x));
                    lemma_least_is(set![x], x);
                } else {
                    let x = choose|x: int| s[ei] == set![x];
                    assert(set![x].contains(x));
                    lemma_least_is(set![x], x);
                }
                let prev = intervals_of(cs);
                let full = intervals_of(cs.push(c));
                assert(full.drop_last() =~= prev);
                assert(full.last() == (c.interval, c.demand));
                assert(load(full, hs, he, time) == load(prev, hs, he, time) + if crate::scheduling::active_at(
                    c.interval,
                    hs,
                    he,
                    time,
                ) {
                    c.demand as int
                } else {
                    0
                });
                assert(c.demand as int == demand_min_spec(s, t));
                if crate::scheduling::active_at(c.interval, hs, he, time) {
                    assert(c.interval.start <= time < c.interval.end);
                    assert(runs_at(t, sigma, time));
                }
                assert(usage(tasks, sigma, time) == usage(d, sigma, time) + if runs_at(t, sigma, time) {
                    task_demand(t, sigma)
                } else {
                    0
                });
            },
            None => {
                assert(usage(tasks, sigma, time) == usage(d, sigma, time) + if runs_at(t, sigma, time) {
                    task_demand(t, sigma)
                } else {
                    0
                });
            },
        }
    }
}

/// A mandatory overload at `capacity`, or a time of the time table above it, leaves no
/// assignment of the store under which the tasks, with demands not negative, respect
/// that capacity.
pub proof fn law_mandatory_overload_unsat(s: Seq<Set<int>>, tasks: Seq<TaskSpec>, capacity: int, sigma: Seq<int>)
    requires
        domains_ok(s),
        tasks_in_range(tasks, s.len()),
        assignment_in(s, sigma),
        cumulative_holds(tasks, capacity)(sigma),
        forall|i: int| 0 <= i < tasks.len() ==> task_demand(#[trigger] tasks[i], sigma) >= 0,
    ensures
        !mandatory_overload(s, tasks, capacity),
        !table_excess(s, tasks, capacity),
{
    let cs = contributions_spec(s, tasks);
    let ivs = intervals_of(cs);
    if mandatory_overload(s, tasks, capacity) {
        let t = choose|t: int| overloaded_at(ivs, capacity, t);
        lemma_contributions_within_usage(s, tasks, sigma, min_start(ivs), max_end(ivs), t);
        assert(usage(tasks, sigma, t) <= capacity);
    }
    if table_excess(s, tasks, capacity) {
        let tb = table_spec(ivs);
        let i = choose|i: int| 0 <= i < tb.len() && tb[i].usage > capacity;
        let hs = min_start(ivs);
        let he = max_end(ivs);
        lemma_load_abs(ivs, hs, he, hs + i);
        assert(tb[i].usage == load(ivs, hs, he, hs + i));
        assert(overloaded_at(ivs, capacity, hs + i));
        lemma_contributions_within_usage(s, tasks, sigma, hs, he, hs + i);
        assert(usage(tasks, sigma, hs + i) <= capacity);
    }
}


/// No task starts and ends on one variable, and no two tasks share a start or an end
/// variable.
pub open spec fn task_vars_apart(tasks: Seq<TaskSpec>) -> bool {
    &&& forall|i: int| 0 <= i < tasks.len() ==> (#[trigger] tasks[i]).start.index != tasks[i].end.index
    &&& forall|i: int, j: int|
        0 <= i < tasks.len() && 0 <= j < tasks.len() && i != j ==> {
            &&& (#[trigger] tasks[i]).start.index != (#[trigger] tasks[j]).start.index
            &&& tasks[i].start.index != tasks[j].end.index
            &&& tasks[i].end.index != tasks[j].end.index
        }
}

/// A fixed end of `t` in `v` leaves its start no value but the end minus `d`.
pub open spec fn end_pins_start(v: Seq<Set<int>>, t: TaskSpec, d: int) -> bool {
    is_fixed(v[t.end.index as int]) ==> v[t.start.index as int].subset_of(
        set![clamp_i32_spec(least(v[t.end.index as int]) - d)],
    )
}

/// On a store inside `s` that holds `sigma`, a task's duration read as in
/// [`duration_min_spec`] is its duration under `sigma`, when a duration variable is
/// fixed in `s`.
proof fn lemma_duration_read(s: Seq<Set<int>>, v: Seq<Set<int>>, t: TaskSpec, sigma: Seq<int>)
    requires
        narrows(s, v),
        assignment_in(v, sigma),
        task_in_range(t, s.len()),
        t.duration_var matches Some(dv) ==> is_fixed(s[dv.index as int]),
    ensures
        duration_min_spec(v, t) == task_duration(t, sigma),
{
    match t.duration_var {
        Some(dv) => {
            let k = dv.index as int;
            let x = choose|x: int| s[k] == set![x];
            assert(v[k].contains(sigma[k]));
            assert(v[k].subset_of(s[k]));
            assert(sigma[k] == x);
            assert(v[k] =~= set![x]);
            assert(is_least(v[k], x));
            lemma_least_is(v[k], x);
        },
        None => {},
    }
}

/// The precedence rules of `t` touch no domain but its start's and its end's.
proof fn lemma_precedence_step_frame(s: Seq<Set<int>>, t: TaskSpec, k: int)
    requires
        0 <= k < s.len(),
        k != t.start.index,
        k != t.end.index,
        task_in_range(t, s.len()),
    ensures
        precedence_step(s, t).len() == s.len(),
        precedence_step(s, t)[k] == s[k],
{
}

/// The rule for a fixed start or end of `t` touches no domain but its start's and its
/// end's.
proof fn lemma_force_frame(s: Seq<Set<int>>, t: TaskSpec, d: int, k: int)
    requires
        0 <= k < s.len(),
        k != t.start.index,
        k != t.end.index,
        task_in_range(t, s.len()),
    ensures
        tt_force(s, t, d).len() == s.len(),
        tt_force(s, t, d)[k] == s[k],
{
}

/// After the precedence rules of every task, a fixed end of a task leaves its start no
/// value but the end minus its duration.
proof fn lemma_precedence_pins(s: Seq<Set<int>>, tasks: Seq<TaskSpec>, sigma: Seq<int>)
    requires
        domains_ok(s),
        tasks_in_range(tasks, s.len()),
        durations_fixed(s, tasks),
        task_vars_apart(tasks),
        assignment_in(s, sigma),
        ends_match(tasks)(sigma),
    ensures
        forall|i: int|
            0 <= i < tasks.len() ==> end_pins_start(
                precedence_result(s, tasks),
                #[trigger] tasks[i],
                task_duration(tasks[i], sigma),
            ),
    decreases tasks.len(),
{
    if tasks.len() > 0 {
        let d = tasks.drop_last();
        assert forall|i: int| 0 <= i < d.len() implies task_in_range(#[trigger] d[i], s.len()) by {
            assert(d[i] == tasks[i]);
        }
        assert forall|i: int| 0 <= i < d.len() implies ((#[trigger] d[i]).duration_var matches Some(v) ==> is_fixed(
            s[v.index as int],
        )) by {
            assert(d[i] == tasks[i]);
        }
        assert forall|i: int| 0 <= i < d.len() implies sigma[(#[trigger] d[i]).end.index as int] == sigma[d[i].start.index as int]
            + task_duration(d[i], sigma) by {
            assert(d[i] == tasks[i]);
        }
        assert(task_vars_apart(d)) by {
            assert forall|i: int| 0 <= i < d.len() implies (#[trigger] d[i]).start.index != d[i].end.index by {
                assert(d[i] == tasks[i]);
            }
            assert forall|i: int, j: int| 0 <= i < d.len() && 0 <= j < d.len() && i != j implies {
                &&& (#[trigger] d[i]).start.index != (#[trigger] d[j]).start.index
                &&& d[i].start.index != d[j].end.index
                &&& d[i].end.index != d[j].end.index
            } by {
                assert(d[i] == tasks[i] && d[j] == tasks[j]);
            }
        }
        lemma_precedence_pins(s, d, sigma);
        lemma_precedence_keeps_one(s, d, sigma);
        let cur = precedence_result(s, d);
        let n = tasks.len() - 1;
        let t = tasks.last();
        assert(t == tasks[n]);
        assert(task_in_range(t, s.len()));
        lemma_duration_read(s, cur, t, sigma);
        let r = precedence_result(s, tasks);
        assert(r == precedence_step(cur, t));
        let si = t.start.index as int;
        let ei = t.end.index as int;
        assert(si != ei);
        let dd = duration_min_spec(cur, t);
        let w = fixed_start_step(bounds_step(cur, t, dd), t, dd);
        assert(r == fixed_end_step(w, t, dd));
        if is_fixed(w[ei]) {
            let c = clamp_i32_spec(least(w[ei]) - dd);
            assert(r[ei] == w[ei]);
            assert(r[si] == at_most(at_least(w[si], c), c));
            assert forall|v: int| r[si].contains(v) implies set![c].contains(v) by {
                assert(v == c);
            }
        } else {
            assert(r[ei] == w[ei]);
        }
        assert(end_pins_start(r, t, task_duration(t, sigma)));
        assert forall|i: int| 0 <= i < tasks.len() implies end_pins_start(r, #[trigger] tasks[i], task_duration(tasks[i], sigma)) by {
            if i < n {
                assert(tasks[i] == d[i]);
                assert(end_pins_start(cur, d[i], task_duration(d[i], sigma)));
                lemma_precedence_step_frame(cur, t, tasks[i].start.index as int);
                lemma_precedence_step_frame(cur, t, tasks[i].end.index as int);
            }
        }
    }
}

/// No time of the table exceeds `cap`, so the value-removing part of the time-table
/// rule leaves `s` as it is.
proof fn lemma_forbid_idle(s: Seq<Set<int>>, t: TaskSpec, d: int, tb: Seq<TimePoint>, cap: int, j: int)
    requires
        0 <= j <= tb.len(),
        forall|i: int| 0 <= i < tb.len() ==> (#[trigger] tb[i]).usage <= cap,
    ensures
        tt_forbid(s, t, d, tb, cap, j) == s,
    decreases j,
{
    if j > 0 {
        lemma_forbid_idle(s, t, d, tb, cap, j - 1);
        assert(tb[j - 1].usage <= cap);
    }
}

/// The time-table rule over the first `k` tasks keeps `sigma`, and the pinning of the
/// later tasks' starts.
proof fn lemma_time_table_prefix(
    s: Seq<Set<int>>,
    u: Seq<Set<int>>,
    all: Seq<TaskSpec>,
    k: int,
    tb: Seq<TimePoint>,
    cap: int,
    sigma: Seq<int>,
)
    requires
        0 <= k <= all.len(),
        domains_ok(u),
        narrows(s, u),
        tasks_in_range(all, s.len()),
        durations_fixed(s, all),
        task_vars_apart(all),
        assignment_in(u, sigma),
        ends_match(all)(sigma),
        forall|i: int| 0 <= i < tb.len() ==> (#[trigger] tb[i]).usage <= cap,
        forall|i: int| 0 <= i < all.len() ==> end_pins_start(u, #[trigger] all[i], task_duration(all[i], sigma)),
    ensures
        assignment_in(tt_result(u, all.take(k), tb, cap), sigma),
        narrows(u, tt_result(u, all.take(k), tb, cap)),
        forall|i: int|
            k <= i < all.len() ==> end_pins_start(
                tt_result(u, all.take(k), tb, cap),
                #[trigger] all[i],
                task_duration(all[i], sigma),
            ),
    decreases k,
{
    if k == 0 {
        assert(all.take(0) =~= Seq::<TaskSpec>::empty());
        assert(narrows(u, u));
    } else {
        lemma_time_table_prefix(s, u, all, k - 1, tb, cap, sigma);
        let ts = all.take(k);
        assert(ts.drop_last() =~= all.take(k - 1));
        let t = all[k - 1];
        assert(ts.last() == t);
        let v = tt_result(u, all.take(k - 1), tb, cap);
        assert(task_in_range(t, s.len()));
        crate::domain::lemma_narrows_trans(s, u, v);
        lemma_duration_read(s, v, t, sigma);
        let d = duration_min_spec(v, t);
        lemma_forbid_idle(v, t, d, tb, cap, tb.len() as int);
        let r = tt_result(u, ts, tb, cap);
        assert(r == tt_force(v, t, d));
        let si = t.start.index as int;
        let ei = t.end.index as int;
        assert(si != ei);
        assert(end_pins_start(v, t, d));
        assert(sigma[ei] == sigma[si] + d);
        assert(v[si].contains(sigma[si]) && v[ei].contains(sigma[ei]));
        if !(v[si].is_empty() || v[ei].is_empty() || !(is_fixed(v[si]) || is_fixed(v[ei]))) {
            if !is_fixed(v[si]) {
                let c = clamp_i32_spec(least(v[ei]) - d);
                assert(v[si].subset_of(set![c]));
                assert(sigma[si] == c);
                assert(v[si] =~= set![c]);
                assert(false);
            }
            let x = choose|x: int| v[si] == set![x];
            assert(sigma[si] == x);
            assert(is_least(v[si], x));
            lemma_least_is(v[si], x);
            assert(u[ei].contains(sigma[ei]));
            assert(in_i32_range(u[ei]));
            assert(clamp_i32_spec(x + d) == x + d);
        }
        assert(assignment_in(r, sigma));
        assert forall|j: int| 0 <= j < u.len() implies (#[trigger] r[j]).subset_of(u[j]) by {
            assert(v[j].subset_of(u[j]));
        }
        assert forall|i: int| k <= i < all.len() implies end_pins_start(r, #[trigger] all[i], task_duration(all[i], sigma)) by {
            assert(end_pins_start(v, all[i], task_duration(all[i], sigma)));
            lemma_force_frame(v, t, d, all[i].start.index as int);
            lemma_force_frame(v, t, d, all[i].end.index as int);
        }
    }
}

/// The precedence rules followed by the time-table rule keep every solution of the
/// cumulative constraint at capacity `cap`, where every duration variable is fixed and
/// no two tasks share a start or an end variable.
pub proof fn law_time_table_keeps(s: Seq<Set<int>>, tasks: Seq<TaskSpec>, cap: int)
    requires
        domains_ok(s),
        tasks_in_range(tasks, s.len()),
        durations_fixed(s, tasks),
        task_vars_apart(tasks),
    ensures
        keeps(s, tt_step(precedence_result(s, tasks), tasks, cap), cumulative_ok(tasks, cap)),
{
    assert forall|sigma: Seq<int>| assignment_in(s, sigma) && #[trigger] cumulative_ok(tasks, cap)(sigma) implies assignment_in(
        tt_step(precedence_result(s, tasks), tasks, cap),
        sigma,
    ) by {
        assert(cumulative_holds(tasks, cap)(sigma));
        assert(ends_match(tasks)(sigma));
        lemma_precedence_keeps_one(s, tasks, sigma);
        lemma_precedence_pins(s, tasks, sigma);
        let u = precedence_result(s, tasks);
        let ivs = intervals_of(contributions_spec(u, tasks));
        if ivs.len() > 0 && table_fits(ivs) {
            law_mandatory_overload_unsat(u, tasks, cap, sigma);
            let tb = table_spec(ivs);
            assert forall|i: int| 0 <= i < tb.len() implies (#[trigger] tb[i]).usage <= cap by {
                if tb[i].usage > cap {
                    assert(table_excess(u, tasks, cap));
                }
            }
            lemma_time_table_prefix(s, u, tasks, tasks.len() as int, tb, cap, sigma);
            assert(tasks.take(tasks.len() as int) =~= tasks);
        }
    }
}

/// Under `sigma`, the tasks respect the capacity that the variable `c` takes, and no task
/// has a negative demand.
pub open spec fn cumulative_var_ok(tasks: Seq<TaskSpec>, c: VariableId) -> spec_fn(Seq<int>) -> bool {
    |sigma: Seq<int>| cumulative_ok(tasks, sigma[c.index as int])(sigma)
}

/// At a time no task runs to, the usage is zero.
proof fn lemma_usage_idle(tasks: Seq<TaskSpec>, sigma: Seq<int>, time: int)
    requires
        forall|i: int| 0 <= i < tasks.len() ==> sigma[(#[trigger] tasks[i]).end.index as int] <= time,
    ensures
        usage(tasks, sigma, time) == 0,
    decreases tasks.len(),
{
    if tasks.len() > 0 {
        let d = tasks.drop_last();
        assert forall|i: int| 0 <= i < d.len() implies sigma[(#[trigger] d[i]).end.index as int] <= time by {
            assert(d[i] == tasks[i]);
        }
        lemma_usage_idle(d, sigma, time);
        assert(tasks.last() == tasks[tasks.len() - 1]);
    }
}

/// A table whose usages are all at most a non-negative `bound` peaks at most there.
proof fn lemma_peak_le(tb: Seq<TimePoint>, bound: int)
    requires
        bound >= 0,
        forall|i: int| 0 <= i < tb.len() ==> (#[trigger] tb[i]).usage <= bound,
    ensures
        peak_spec(tb) <= bound,
    decreases tb.len(),
{
    if tb.len() > 1 {
        let d = tb.drop_last();
        assert forall|i: int| 0 <= i < d.len() implies (#[trigger] d[i]).usage <= bound by {
            assert(d[i] == tb[i]);
        }
        lemma_peak_le(d, bound);
        assert(tb.last() == tb[tb.len() - 1]);
    } else if tb.len() == 1 {
        assert(tb[0].usage <= bound);
    }
}

/// Raising the capacity variable to the peak mandatory usage keeps every solution of the
/// cumulative constraint whose capacity is that variable's value.
pub proof fn law_capacity_raise_keeps(s: Seq<Set<int>>, tasks: Seq<TaskSpec>, c: VariableId, current_min: int)
    requires
        domains_ok(s),
        tasks_in_range(tasks, s.len()),
        c.index < s.len(),
    ensures
        keeps(s, cap_step(s, tasks, Some(c), current_min), cumulative_var_ok(tasks, c)),
{
    assert forall|sigma: Seq<int>| assignment_in(s, sigma) && #[trigger] cumulative_var_ok(tasks, c)(sigma) implies assignment_in(
        cap_step(s, tasks, Some(c), current_min),
        sigma,
    ) by {
        let cv = sigma[c.index as int];
        assert(cumulative_ok(tasks, cv)(sigma));
        assert(cumulative_holds(tasks, cv)(sigma));
        assert forall|i: int| 0 <= i < tasks.len() implies sigma[(#[trigger] tasks[i]).end.index as int] <= i32::MAX by {
            assert(task_in_range(tasks[i], s.len()));
            assert(s[tasks[i].end.index as int].contains(sigma[tasks[i].end.index as int]));
            assert(in_i32_range(s[tasks[i].end.index as int]));
        }
        lemma_usage_idle(tasks, sigma, i32::MAX as int);
        assert(usage(tasks, sigma, i32::MAX as int) <= cv);
        let ivs = intervals_of(contributions_spec(s, tasks));
        if ivs.len() > 0 && table_fits(ivs) && peak_spec(table_spec(ivs)) > current_min {
            law_mandatory_overload_unsat(s, tasks, cv, sigma);
            let tb = table_spec(ivs);
            assert forall|i: int| 0 <= i < tb.len() implies (#[trigger] tb[i]).usage <= cv by {
                if tb[i].usage > cv {
                    assert(table_excess(s, tasks, cv));
                }
            }
            lemma_peak_le(tb, cv);
            assert(s[c.index as int].contains(cv));
        }
    }
}

} // verus!
