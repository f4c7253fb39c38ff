//! Scheduling helpers for cumulative propagation.
use crate::domain::VariableId;
use vstd::prelude::*;

verus! {

/// Task specification for cumulative constraints.
#[derive(Clone, Copy, Debug)]
pub struct TaskSpec {
    /// Start time variable.
    pub start: VariableId,
    /// Fixed task duration.
    pub duration: i32,
    /// End time variable.
    pub end: VariableId,
    /// Resource demand while the task runs.
    pub demand: i32,
    /// Variable duration, whose least value replaces `duration` while its domain is
    /// not empty.
    pub duration_var: Option<VariableId>,
    /// Variable demand, whose least value replaces `demand` while its domain is not
    /// empty.
    pub demand_var: Option<VariableId>,
}

impl TaskSpec {
    /// Creates a task with unit resource demand.
    pub fn new(start: VariableId, duration: i32, end: VariableId) -> (t: Self)
        ensures
            t.start == start,
            t.duration == duration,
            t.end == end,
            t.demand == 1,
            t.duration_var is None,
            t.demand_var is None,
    {
        TaskSpec { start, duration, end, demand: 1, duration_var: None, demand_var: None }
    }

    /// Creates a task with explicit resource demand.
    pub fn with_demand(start: VariableId, duration: i32, end: VariableId, demand: i32) -> (t: Self)
        ensures
            t.start == start,
            t.duration == duration,
            t.end == end,
            t.demand == demand,
            t.duration_var is None,
            t.demand_var is None,
    {
        TaskSpec { start, duration, end, demand, duration_var: None, demand_var: None }
    }

    /// Creates a task whose duration and demand may be variables, with `duration` and
    /// `demand` as the values used while those variables have empty domains.
    pub fn with_variable_spec(
        start: VariableId,
        end: VariableId,
        duration: i32,
        duration_var: Option<VariableId>,
        demand: i32,
        demand_var: Option<VariableId>,
    ) -> (t: Self)
        ensures
            t == (TaskSpec { start, duration, end, demand, duration_var, demand_var }),
    {
        TaskSpec { start, duration, end, demand, duration_var, demand_var }
    }
}

/// A task as edge finding reads it: its variables, bounds, least duration and demand,
/// and energy (duration times demand).
#[derive(Clone, Copy, Debug)]
pub struct EdgeFindingTask {
    /// Start time variable.
    pub start: VariableId,
    /// End time variable.
    pub end: VariableId,
    /// Earliest start.
    pub est: i32,
    /// Latest completion.
    pub lct: i32,
    /// Least duration.
    pub duration: i32,
    /// Least demand.
    pub demand: i32,
    /// Duration times demand.
    pub energy: i64,
}

/// Energy left free in the window `[est, lct)` at `capacity` once `energy` is used.
pub fn residual_energy(capacity: i32, est: i32, lct: i32, energy: i128) -> (r: i128)
    requires
        -0x4000_0000_0000_0000_0000_0000_0000_0000 <= energy <= 0x4000_0000_0000_0000_0000_0000_0000_0000,
    ensures
        r == capacity * (lct - est) - energy,
{
    let width = lct as i128 - est as i128;
    proof {
        assert(-0x1_0000_0000 <= width <= 0x1_0000_0000);
        assert(-0x1_0000_0000_0000_0000 <= capacity * width <= 0x1_0000_0000_0000_0000) by (nonlinear_arith)
            requires
                -0x1_0000_0000 <= width <= 0x1_0000_0000,
                i32::MIN <= capacity <= i32::MAX,
        ;
    }
    capacity as i128 * width - energy
}

/// `n / d` rounded up, for `d > 0`.
pub open spec fn ceil_div_pos(n: int, d: int) -> int {
    (n + d - 1) / d
}

/// Earliest start a task of `duration` and `demand` can take once `diff` of its energy
/// has to fall after `lct_theta`, saturating into `i32`.
pub fn edge_finding_new_est(lct_theta: i32, duration: i32, demand: i32, diff: i128) -> (r: i32)
    requires
        demand > 0,
        0 < diff < 0x1_0000_0000_0000_0000_0000_0000,
    ensures
        r == crate::arith::clamp_i32_spec(lct_theta - duration + ceil_div_pos(diff as int, demand as int)),
{
    let q = (diff + demand as i128 - 1) / demand as i128;
    proof {
        assert(0 <= q <= diff) by (nonlinear_arith)
            requires
                q == (diff + demand - 1) / (demand as int),
                demand > 0,
                diff > 0,
        ;
    }
    let v = lct_theta as i128 - duration as i128 + q;
    if v < i32::MIN as i128 {
        i32::MIN
    } else if v > i32::MAX as i128 {
        i32::MAX
    } else {
        v as i32
    }
}

/// Latest completion a task of `duration` and `demand` can take once `diff` of its
/// energy has to fall before `est_theta`, saturating into `i32`.
pub fn edge_finding_new_lct(est_theta: i32, duration: i32, demand: i32, diff: i128) -> (r: i32)
    requires
        demand > 0,
        0 < diff < 0x1_0000_0000_0000_0000_0000_0000,
    ensures
        r == crate::arith::clamp_i32_spec(est_theta + duration - ceil_div_pos(diff as int, demand as int)),
{
    let q = (diff + demand as i128 - 1) / demand as i128;
    proof {
        assert(0 <= q <= diff) by (nonlinear_arith)
            requires
                q == (diff + demand - 1) / (demand as int),
                demand > 0,
                diff > 0,
        ;
    }
    let v = est_theta as i128 + duration as i128 - q;
    if v < i32::MIN as i128 {
        i32::MIN
    } else if v > i32::MAX as i128 {
        i32::MAX
    } else {
        v as i32
    }
}

/// Returns earliest start time from domain minimum.
pub fn est(min_start: i32) -> (r: i32)
    ensures
        r == min_start,
{
    min_start
}

/// Returns latest start time: latest completion minus duration.
pub fn lst(max_end: i32, duration: i32) -> (r: i32)
    requires
        i32::MIN <= max_end - duration <= i32::MAX,
    ensures
        r == max_end - duration,
{
    max_end - duration
}

/// Returns earliest completion time.
pub fn ect(min_start: i32, duration: i32) -> (r: i32)
    requires
        i32::MIN <= min_start + duration <= i32::MAX,
    ensures
        r == min_start + duration,
{
    min_start + duration
}

/// Returns latest completion time from domain maximum.
pub fn lct(max_end: i32) -> (r: i32)
    ensures
        r == max_end,
{
    max_end
}

/// Mandatory interval `[start, end)` for energetic reasoning.
#[derive(Clone, Copy, Debug, PartialEq, Eq, Structural)]
pub struct MandatoryInterval {
    /// Inclusive start.
    pub start: i32,
    /// Exclusive end.
    pub end: i32,
}

pub open spec fn min_int(a: int, b: int) -> int {
    if a <= b { a } else { b }
}

pub open spec fn max_int(a: int, b: int) -> int {
    if a >= b { a } else { b }
}

/// Computes mandatory part `[est, ect)` intersected with `[est, lct)`.
pub fn mandatory_interval(est: i32, ect: i32, lct: i32) -> (r: Option<MandatoryInterval>)
    ensures
        r == (if est < min_int(ect as int, lct as int) {
            Some(MandatoryInterval { start: est, end: min_int(ect as int, lct as int) as i32 })
        } else {
            None
        }),
{
    let start = est;
    let end = if ect <= lct { ect } else { lct };
    if start < end {
        Some(MandatoryInterval { start, end })
    } else {
        None
    }
}

/// Start of an interval once clipped to the horizon.
pub open spec fn clipped_start(iv: MandatoryInterval, hs: int) -> int {
    max_int(iv.start as int, hs)
}

/// End of an interval once clipped to the horizon.
pub open spec fn clipped_end(iv: MandatoryInterval, he: int) -> int {
    min_int(iv.end as int, he)
}

/// The clipped interval covers time `t`.
pub open spec fn active_at(iv: MandatoryInterval, hs: int, he: int, t: int) -> bool {
    clipped_start(iv, hs) <= t < clipped_end(iv, he)
}

/// Total demand of the intervals that cover `t` inside the horizon `[hs, he)`.
pub open spec fn load(ivs: Seq<(MandatoryInterval, i32)>, hs: int, he: int, t: int) -> int
    decreases ivs.len(),
{
    if ivs.len() == 0 {
        0
    } else {
        load(ivs.drop_last(), hs, he, t) + if active_at(ivs.last().0, hs, he, t) {
            ivs.last().1 as int
        } else {
            0
        }
    }
}

/// `t` is the start or the end of some interval that is non-empty once clipped.
pub open spec fn is_event(ivs: Seq<(MandatoryInterval, i32)>, hs: int, he: int, t: int) -> bool {
    exists|i: int|
        0 <= i < ivs.len() && clipped_start(#[trigger] ivs[i].0, hs) < clipped_end(ivs[i].0, he)
            && (t == clipped_start(ivs[i].0, hs) || t == clipped_end(ivs[i].0, he))
}

proof fn lemma_load_bound(ivs: Seq<(MandatoryInterval, i32)>, hs: int, he: int, t: int)
    ensures
        -(ivs.len() as int) * 0x8000_0000 <= load(ivs, hs, he, t) <= (ivs.len() as int) * 0x8000_0000,
    decreases ivs.len(),
{
    if ivs.len() > 0 {
        lemma_load_bound(ivs.drop_last(), hs, he, t);
    }
}

/// Two times covered by exactly the same intervals carry the same load.
proof fn lemma_load_same_activity(ivs: Seq<(MandatoryInterval, i32)>, hs: int, he: int, t: int, u: int)
    requires
        forall|i: int| 0 <= i < ivs.len() ==> (active_at(#[trigger] ivs[i].0, hs, he, t) <==> active_at(ivs[i].0, hs, he, u)),
    ensures
        load(ivs, hs, he, t) == load(ivs, hs, he, u),
    decreases ivs.len(),
{
    if ivs.len() > 0 {
        let d = ivs.drop_last();
        assert forall|i: int| 0 <= i < d.len() implies (active_at(#[trigger] d[i].0, hs, he, t) <==> active_at(d[i].0, hs, he, u)) by {
            assert(d[i] == ivs[i]);
        }
        lemma_load_same_activity(d, hs, he, t, u);
        assert(ivs.last() == ivs[ivs.len() - 1]);
    }
}

/// A time covered by no interval has zero load.
proof fn lemma_load_idle(ivs: Seq<(MandatoryInterval, i32)>, hs: int, he: int, t: int)
    requires
        forall|i: int| 0 <= i < ivs.len() ==> !active_at(#[trigger] ivs[i].0, hs, he, t),
    ensures
        load(ivs, hs, he, t) == 0,
    decreases ivs.len(),
{
    if ivs.len() > 0 {
        let d = ivs.drop_last();
        assert forall|i: int| 0 <= i < d.len() implies !active_at(#[trigger] d[i].0, hs, he, t) by {
            assert(d[i] == ivs[i]);
        }
        lemma_load_idle(d, hs, he, t);
        assert(ivs.last() == ivs[ivs.len() - 1]);
    }
}

/// Largest event time that is at most `t`, if any (over the first `n` intervals).
spec fn last_event_upto(ivs: Seq<(MandatoryInterval, i32)>, hs: int, he: int, t: int, n: int) -> Option<int>
    decreases n,
{
    if n <= 0 {
        None
    } else {
        let prev = last_event_upto(ivs, hs, he, t, n - 1);
        let iv = ivs[n - 1].0;
        let s = clipped_start(iv, hs);
        let e = clipped_end(iv, he);
        let c1 = if s < e && s <= t { Some(s) } else { None };
        let c2 = if s < e && e <= t { Some(e) } else { None };
        let m1 = match (prev, c1) {
            (Some(a), Some(b)) => Some(max_int(a, b)),
            (Some(a), None) => Some(a),
            (None, b) => b,
        };
        match (m1, c2) {
            (Some(a), Some(b)) => Some(max_int(a, b)),
            (Some(a), None) => Some(a),
            (None, b) => b,
        }
    }
}

proof fn lemma_last_event_upto(ivs: Seq<(MandatoryInterval, i32)>, hs: int, he: int, t: int, n: int)
    requires
        0 <= n <= ivs.len(),
    ensures
        match last_event_upto(ivs, hs, he, t, n) {
            Some(m) => m <= t && is_event(ivs, hs, he, m) && (forall|i: int|
                0 <= i < n && clipped_start(#[trigger] ivs[i].0, hs) < clipped_end(ivs[i].0, he) ==> (
                clipped_start(ivs[i].0, hs) <= t ==> clipped_start(ivs[i].0, hs) <= m) && (
                clipped_end(ivs[i].0, he) <= t ==> clipped_end(ivs[i].0, he) <= m)),
            None => forall|i: int|
                0 <= i < n && clipped_start(#[trigger] ivs[i].0, hs) < clipped_end(ivs[i].0, he) ==> t < clipped_start(ivs[i].0, hs),
        },
    decreases n,
{
    if n > 0 {
        lemma_last_event_upto(ivs, hs, he, t, n - 1);
    }
}


/// Computes `load` at time `t`.
fn load_at(ivs: &[(MandatoryInterval, i32)], hs: i32, he: i32, t: i32) -> (r: i128)
    ensures
        r == load(ivs@, hs as int, he as int, t as int),
{
    let mut sum: i128 = 0;
    let mut i: usize = 0;
    while i < ivs.len()
        invariant
            0 <= i <= ivs.len(),
            sum == load(ivs@.take(i as int), hs as int, he as int, t as int),
        decreases ivs.len() - i,
    {
        let (iv, demand) = ivs[i];
        let s = if iv.start >= hs { iv.start } else { hs };
        let e = if iv.end <= he { iv.end } else { he };
        proof {
            lemma_load_bound(ivs@.take(i as int), hs as int, he as int, t as int);
            assert(ivs@.take(i + 1).drop_last() == ivs@.take(i as int));
            assert(ivs@.take(i + 1).last() == ivs@[i as int]);
        }
        if s <= t && t < e {
            sum = sum + demand as i128;
        }
        i = i + 1;
    }
    assert(ivs@.take(ivs.len() as int) == ivs@);
    sum
}

/// Returns `true` when mandatory demand exceeds capacity in `[start, end)`.
pub fn detect_overload(
    intervals: &[(MandatoryInterval, i32)],
    capacity: i32,
    horizon_start: i32,
    horizon_end: i32,
) -> (r: bool)
    ensures
        r <==> exists|t: int|
            horizon_start <= t < horizon_end && load(intervals@, horizon_start as int, horizon_end as int, t) > capacity,
{
    let found = find_overload_time(intervals, capacity, horizon_start, horizon_end);
    proof {
        if found.is_some() {
            let t = found.unwrap() as int;
            assert(load(intervals@, horizon_start as int, horizon_end as int, t) > capacity);
        }
    }
    found.is_some()
}


/// Returns the earliest time of the horizon `[horizon_start, horizon_end)` where
/// mandatory demand exceeds `capacity`.
pub fn find_overload_time(
    intervals: &[(MandatoryInterval, i32)],
    capacity: i32,
    horizon_start: i32,
    horizon_end: i32,
) -> (r: Option<i32>)
    ensures
        match r {
            Some(t) => horizon_start <= t < horizon_end && load(intervals@, horizon_start as int, horizon_end as int, t as int)
                > capacity && forall|u: int|
                horizon_start <= u < t ==> load(intervals@, horizon_start as int, horizon_end as int, u) <= capacity,
            None => forall|u: int|
                horizon_start <= u < horizon_end ==> load(intervals@, horizon_start as int, horizon_end as int, u) <= capacity,
        },
{
    let ghost ivs = intervals@;
    let ghost hs = horizon_start as int;
    let ghost he = horizon_end as int;
    // Load is constant between interval boundaries, so the candidates are the start of
    // the horizon and the clipped boundaries inside it.
    let mut best: Option<i32> = None;
    if horizon_start < horizon_end {
        let l0 = load_at(intervals, horizon_start, horizon_end, horizon_start);
        if l0 > capacity as i128 {
            best = Some(horizon_start);
        }
    }
    let mut i: usize = 0;
    while i < intervals.len()
        invariant
            0 <= i <= intervals.len(),
            ivs == intervals@,
            hs == horizon_start,
            he == horizon_end,
            match best {
                Some(b) => load(ivs, hs, he, b as int) > capacity && hs <= b < he,
                None => true,
            },
            hs < he && load(ivs, hs, he, hs) > capacity ==> best is Some && best.unwrap() <= hs,
            forall|j: int| 0 <= j < i && clipped_start(#[trigger] ivs[j].0, hs) < clipped_end(ivs[j].0, he) ==> {
                &&& (load(ivs, hs, he, clipped_start(ivs[j].0, hs)) <= capacity || (best is Some
                    && best.unwrap() <= clipped_start(ivs[j].0, hs)))
                &&& (clipped_end(ivs[j].0, he) < he ==> (load(ivs, hs, he, clipped_end(ivs[j].0, he)) <= capacity || (best is Some
                    && best.unwrap() <= clipped_end(ivs[j].0, he))))
            },
        decreases intervals.len() - i,
    {
        let iv = intervals[i].0;
        let s = if iv.start >= horizon_start { iv.start } else { horizon_start };
        let e = if iv.end <= horizon_end { iv.end } else { horizon_end };
        if s < e {
            let ls = load_at(intervals, horizon_start, horizon_end, s);
            if ls > capacity as i128 {
                match best {
                    Some(b) => {
                        if s < b {
                            best = Some(s);
                        }
                    },
                    None => {
                        best = Some(s);
                    },
                }
            }
            if e < horizon_end {
                let le = load_at(intervals, horizon_start, horizon_end, e);
                if le > capacity as i128 {
                    match best {
                        Some(b) => {
                            if e < b {
                                best = Some(e);
                            }
                        },
                        None => {
                            best = Some(e);
                        },
                    }
                }
            }
        }
        i = i + 1;
    }
    proof {
        assert forall|u: int| hs <= u < he && (match best { Some(b) => u < b, None => true }) implies load(ivs, hs, he, u)
            <= capacity by {
            lemma_last_event_upto(ivs, hs, he, u, ivs.len() as int);
            match last_event_upto(ivs, hs, he, u, ivs.len() as int) {
                Some(m) => {
                    assert forall|i: int| 0 <= i < ivs.len() implies (active_at(#[trigger] ivs[i].0, hs, he, u) <==> active_at(ivs[i].0, hs, he, m)) by {
                    }
                    lemma_load_same_activity(ivs, hs, he, u, m);
                    if load(ivs, hs, he, u) > capacity {
                        let j = choose|j: int| 0 <= j < ivs.len() && clipped_start(#[trigger] ivs[j].0, hs) < clipped_end(ivs[j].0, he)
                            && (m == clipped_start(ivs[j].0, hs) || m == clipped_end(ivs[j].0, he));
                        assert(clipped_start(ivs[j].0, hs) < clipped_end(ivs[j].0, he));
                    }
                },
                None => {
                    lemma_load_idle(ivs, hs, he, u);
                    assert forall|i: int| 0 <= i < ivs.len() implies !active_at(#[trigger] ivs[i].0, hs, he, hs) by {}
                    lemma_load_idle(ivs, hs, he, hs);
                },
            }
        }
    }
    best
}

/// Mandatory interval with the start assignment that created it.
#[derive(Clone, Copy, Debug)]
pub struct MandatoryContribution {
    /// Mandatory interval.
    pub interval: MandatoryInterval,
    /// Resource demand during the interval.
    pub demand: i32,
    /// Start decision variable.
    pub start_var: VariableId,
    /// Start value that makes the interval mandatory.
    pub start_value: i32,
}

/// Time point for edge finding.
#[derive(Clone, Copy, Debug, PartialEq, Eq, Structural)]
pub struct TimePoint {
    /// Time coordinate.
    pub time: i32,
    /// Resource usage at this point after mandatory propagation.
    pub usage: i32,
}

/// Returns the earliest time where mandatory usage in `table` exceeds `capacity`.
pub fn find_excess_time(table: &[TimePoint], capacity: i32) -> (r: Option<i32>)
    ensures
        match r {
            Some(t) => exists|i: int| 0 <= i < table@.len() && table@[i].usage > capacity && table@[i].time == t
                && forall|j: int| 0 <= j < i ==> table@[j].usage <= capacity,
            None => forall|i: int| 0 <= i < table@.len() ==> table@[i].usage <= capacity,
        },
{
    let mut i: usize = 0;
    while i < table.len()
        invariant
            0 <= i <= table.len(),
            forall|j: int| 0 <= j < i ==> table@[j].usage <= capacity,
        decreases table.len() - i,
    {
        if table[i].usage > capacity {
            return Some(table[i].time);
        }
        i = i + 1;
    }
    None
}


/// Builds a time table of mandatory usage at integer time points.
pub fn build_time_table(
    intervals: &[(MandatoryInterval, i32)],
    horizon_start: i32,
    horizon_end: i32,
) -> (table: Vec<TimePoint>)
    requires
        i32::MIN <= horizon_end - horizon_start <= i32::MAX,
        forall|k: int, t: int|
            0 <= k <= intervals@.len() && horizon_start <= t < horizon_end ==> i32::MIN <= #[trigger] load(
                intervals@.take(k),
                horizon_start as int,
                horizon_end as int,
                t,
            ) <= i32::MAX,
    ensures
        table@.len() == (if horizon_end > horizon_start { horizon_end - horizon_start } else { 0 }),
        forall|j: int|
            0 <= j < table@.len() ==> #[trigger] table@[j].time == horizon_start + j && table@[j].usage == load(
                intervals@,
                horizon_start as int,
                horizon_end as int,
                horizon_start + j,
            ),
{
    let ghost ivs = intervals@;
    let ghost hs = horizon_start as int;
    let ghost he = horizon_end as int;
    let n: usize = if horizon_end > horizon_start { (horizon_end - horizon_start) as usize } else { 0 };
    let mut usage: Vec<i32> = Vec::new();
    while usage.len() < n
        invariant
            usage@.len() <= n,
            forall|j: int| 0 <= j < usage@.len() ==> usage@[j] == 0,
        decreases n - usage@.len(),
    {
        usage.push(0);
    }
    proof {
        assert forall|j: int| 0 <= j < n implies usage@[j] == load(#[trigger] ivs.take(0), hs, he, hs + j) by {
            assert(ivs.take(0).len() == 0);
        }
    }
    let mut k: usize = 0;
    while k < intervals.len()
        invariant
            0 <= k <= intervals.len(),
            ivs == intervals@,
            hs == horizon_start,
            he == horizon_end,
            n == (if he > hs { he - hs } else { 0 }),
            usage@.len() == n,
            i32::MIN <= horizon_end - horizon_start <= i32::MAX,
            forall|kk: int, t: int|
                0 <= kk <= ivs.len() && hs <= t < he ==> i32::MIN <= #[trigger] load(ivs.take(kk), hs, he, t) <= i32::MAX,
            forall|j: int| 0 <= j < n ==> usage@[j] == load(#[trigger] ivs.take(k as int), hs, he, hs + j),
        decreases intervals.len() - k,
    {
        let (iv, demand) = intervals[k];
        let s = if iv.start >= horizon_start { iv.start } else { horizon_start };
        let e = if iv.end <= horizon_end { iv.end } else { horizon_end };
        proof {
            assert(ivs.take(k + 1).drop_last() == ivs.take(k as int));
            assert(ivs.take(k + 1).last() == ivs[k as int]);
        }
        let mut t = s;
        while t < e
            invariant
                s <= t,
                t == s || t <= e,
                s == max_int(iv.start as int, hs),
                e == min_int(iv.end as int, he),
                (iv, demand) == ivs[k as int],
                0 <= k < ivs.len(),
                i32::MIN <= horizon_end - horizon_start <= i32::MAX,
                ivs.take(k + 1).drop_last() == ivs.take(k as int),
                ivs.take(k + 1).last() == ivs[k as int],
                ivs == intervals@,
                hs == horizon_start,
                he == horizon_end,
                n == (if he > hs { he - hs } else { 0 }),
                usage@.len() == n,
                forall|kk: int, tt: int|
                    0 <= kk <= ivs.len() && hs <= tt < he ==> i32::MIN <= #[trigger] load(ivs.take(kk), hs, he, tt) <= i32::MAX,
                forall|j: int|
                    0 <= j < n ==> usage@[j] == load(#[trigger] ivs.take(k as int), hs, he, hs + j) + if s <= hs + j < t {
                        demand as int
                    } else {
                        0
                    },
            decreases e - t,
        {
            let index = (t - horizon_start) as usize;
            proof {
                assert(load(ivs.take(k + 1), hs, he, t as int) == load(ivs.take(k as int), hs, he, t as int) + demand);
                assert(ivs.take(k as int) == ivs.take(k as int));
            }
            usage.set(index, usage[index] + demand);
            t = t + 1;
        }
        proof {
            assert forall|j: int| 0 <= j < n implies usage@[j] == load(#[trigger] ivs.take(k + 1), hs, he, hs + j) by {
                assert(ivs.take(k + 1).drop_last() == ivs.take(k as int));
                assert(ivs.take(k + 1).last() == ivs[k as int]);
                assert(active_at(ivs[k as int].0, hs, he, hs + j) <==> (s <= hs + j < t));
            }
        }
        k = k + 1;
    }
    assert(ivs.take(ivs.len() as int) == ivs);
    let mut table: Vec<TimePoint> = Vec::new();
    let mut j: usize = 0;
    while j < n
        invariant
            0 <= j <= n,
            usage@.len() == n,
            n == (if he > hs { he - hs } else { 0 }),
            hs == horizon_start,
            he == horizon_end,
            i32::MIN <= horizon_end - horizon_start <= i32::MAX,
            ivs == intervals@,
            table@.len() == j,
            forall|jj: int| 0 <= jj < n ==> usage@[jj] == load(#[trigger] ivs.take(ivs.len() as int), hs, he, hs + jj),
            ivs.take(ivs.len() as int) == ivs,
            forall|jj: int|
                0 <= jj < j ==> #[trigger] table@[jj].time == hs + jj && table@[jj].usage == load(ivs, hs, he, hs + jj),
        decreases n - j,
    {
        table.push(TimePoint { time: horizon_start + j as i32, usage: usage[j] });
        j = j + 1;
    }
    assert(table@.len() == n);
    assert forall|jj: int| 0 <= jj < table@.len() implies #[trigger] table@[jj].time == horizon_start + jj by {}
    assert forall|jj: int| 0 <= jj < table@.len() implies table@[jj].usage == load(intervals@, horizon_start as int, horizon_end as int, horizon_start + jj) by {
        assert(table@[jj].time == hs + jj);
    }
    table
}

/// Earliest start and latest end over `intervals`, or `(0, 0)` when there are none.
pub fn interval_horizon(intervals: &[(MandatoryInterval, i32)]) -> (r: (i32, i32))
    ensures
        intervals@.len() == 0 ==> r == (0i32, 0i32),
        intervals@.len() > 0 ==> {
            &&& exists|i: int| 0 <= i < intervals@.len() && intervals@[i].0.start == r.0
            &&& exists|i: int| 0 <= i < intervals@.len() && intervals@[i].0.end == r.1
            &&& forall|i: int| 0 <= i < intervals@.len() ==> r.0 <= #[trigger] intervals@[i].0.start
            &&& forall|i: int| 0 <= i < intervals@.len() ==> #[trigger] intervals@[i].0.end <= r.1
        },
{
    if intervals.len() == 0 {
        return (0, 0);
    }
    let mut lo = intervals[0].0.start;
    let mut hi = intervals[0].0.end;
    let mut i: usize = 1;
    while i < intervals.len()
        invariant
            1 <= i <= intervals.len(),
            exists|k: int| 0 <= k < i && intervals@[k].0.start == lo,
            exists|k: int| 0 <= k < i && intervals@[k].0.end == hi,
            forall|k: int| 0 <= k < i ==> lo <= #[trigger] intervals@[k].0.start,
            forall|k: int| 0 <= k < i ==> #[trigger] intervals@[k].0.end <= hi,
        decreases intervals.len() - i,
    {
        if intervals[i].0.start < lo {
            lo = intervals[i].0.start;
        }
        if intervals[i].0.end > hi {
            hi = intervals[i].0.end;
        }
        i = i + 1;
    }
    (lo, hi)
}

/// The contribution's interval covers `time`.
pub open spec fn covers(c: MandatoryContribution, time: int) -> bool {
    c.interval.start <= time < c.interval.end
}

/// Some contribution covering `time` has this start variable and start value.
pub open spec fn justified_literal(cs: Seq<MandatoryContribution>, time: int, lit: (VariableId, i32)) -> bool {
    exists|i: int| 0 <= i < cs.len() && covers(#[trigger] cs[i], time) && cs[i].start_var == lit.0 && cs[i].start_value == lit.1
}

/// Returns start literals for mandatory tasks active at `time`, one per start variable,
/// ordered by variable key.
pub fn mandatory_literals_at_time(
    contributions: &[MandatoryContribution],
    time: i32,
) -> (literals: Vec<(VariableId, i32)>)
    ensures
        forall|a: int, b: int| 0 <= a < b < literals@.len() ==> literals@[a].0.index < literals@[b].0.index,
        forall|a: int| 0 <= a < literals@.len() ==> justified_literal(contributions@, time as int, #[trigger] literals@[a]),
        forall|i: int|
            0 <= i < contributions@.len() && covers(#[trigger] contributions@[i], time as int) ==> exists|a: int|
                0 <= a < literals@.len() && literals@[a].0 == contributions@[i].start_var,
{
    let mut literals: Vec<(VariableId, i32)> = Vec::new();
    let mut i: usize = 0;
    while i < contributions.len()
        invariant
            0 <= i <= contributions.len(),
            forall|a: int, b: int| 0 <= a < b < literals@.len() ==> literals@[a].0.index < literals@[b].0.index,
            forall|a: int| 0 <= a < literals@.len() ==> justified_literal(contributions@, time as int, #[trigger] literals@[a]),
            forall|k: int|
                0 <= k < i && covers(#[trigger] contributions@[k], time as int) ==> exists|a: int|
                    0 <= a < literals@.len() && literals@[a].0 == contributions@[k].start_var,
        decreases contributions.len() - i,
    {
        let c = contributions[i];
        if c.interval.start <= time && time < c.interval.end {
            let key = c.start_var.index;
            let mut p: usize = 0;
            while p < literals.len() && literals[p].0.index < key
                invariant
                    0 <= p <= literals@.len(),
                    forall|a: int| 0 <= a < p ==> literals@[a].0.index < key,
                decreases literals@.len() - p,
            {
                p = p + 1;
            }
            if p < literals.len() && literals[p].0.index == key {
                proof {
                    assert(literals@[p as int].0 == c.start_var);
                }
            } else {
                let ghost old_lits = literals@;
                literals.insert(p, (c.start_var, c.start_value));
                proof {
                    assert forall|a: int, b: int| 0 <= a < b < literals@.len() implies literals@[a].0.index < literals@[b].0.index by {
                        if b < p {
                        } else if a < p && b == p {
                        } else if a < p {
                            assert(literals@[b] == old_lits[b - 1]);
                        } else if a == p {
                            assert(literals@[b] == old_lits[b - 1]);
                        } else {
                            assert(literals@[a] == old_lits[a - 1]);
                            assert(literals@[b] == old_lits[b - 1]);
                        }
                    }
                    assert forall|a: int| 0 <= a < literals@.len() implies justified_literal(contributions@, time as int, #[trigger] literals@[a]) by {
                        if a < p {
                            assert(literals@[a] == old_lits[a]);
                        } else if a == p {
                            assert(covers(contributions@[i as int], time as int));
                        } else {
                            assert(literals@[a] == old_lits[a - 1]);
                        }
                    }
                    assert forall|k: int|
                        0 <= k < i + 1 && covers(#[trigger] contributions@[k], time as int) implies exists|a: int|
                            0 <= a < literals@.len() && literals@[a].0 == contributions@[k].start_var by {
                        if k == i {
                            assert(literals@[p as int].0 == contributions@[k].start_var);
                        } else {
                            let a = choose|a: int| 0 <= a < old_lits.len() && old_lits[a].0 == contributions@[k].start_var;
                            if a < p {
                                assert(literals@[a] == old_lits[a]);
                            } else {
                                assert(literals@[a + 1] == old_lits[a]);
                            }
                        }
                    }
                }
            }
        }
        i = i + 1;
    }
    literals
}


/// A time table of the intervals over `[hs, he)`: one point per time, carrying the load.
pub open spec fn is_time_table(table: Seq<TimePoint>, ivs: Seq<(MandatoryInterval, i32)>, hs: int, he: int) -> bool {
    &&& table.len() == (if he > hs { he - hs } else { 0 })
    &&& forall|j: int| 0 <= j < table.len() ==> #[trigger] table[j].time == hs + j && table[j].usage == load(ivs, hs, he, hs + j)
}

/// Scanning a time table for the first usage above `capacity` finds the same time as
/// scanning the horizon for the first load above `capacity`, and finds none exactly when
/// that scan finds none: what [`find_excess_time`] returns on the table built by
/// [`build_time_table`] is what [`find_overload_time`] returns on the intervals.
pub proof fn law_excess_matches_overload(
    table: Seq<TimePoint>,
    ivs: Seq<(MandatoryInterval, i32)>,
    hs: int,
    he: int,
    capacity: int,
    t: int,
)
    requires
        is_time_table(table, ivs, hs, he),
    ensures
        (exists|i: int|
            0 <= i < table.len() && table[i].usage > capacity && table[i].time == t && forall|j: int|
                0 <= j < i ==> table[j].usage <= capacity) <==> (hs <= t < he && load(ivs, hs, he, t) > capacity && forall|u: int|
            hs <= u < t ==> load(ivs, hs, he, u) <= capacity),
        (forall|i: int| 0 <= i < table.len() ==> table[i].usage <= capacity) <==> (forall|u: int|
            hs <= u < he ==> load(ivs, hs, he, u) <= capacity),
{
    if exists|i: int|
        0 <= i < table.len() && table[i].usage > capacity && table[i].time == t && forall|j: int|
            0 <= j < i ==> table[j].usage <= capacity {
        let i = choose|i: int|
            0 <= i < table.len() && table[i].usage > capacity && table[i].time == t && forall|j: int|
                0 <= j < i ==> table[j].usage <= capacity;
        assert forall|u: int| hs <= u < t implies load(ivs, hs, he, u) <= capacity by {
            assert(table[u - hs].time == u);
        }
    }
    if hs <= t < he && load(ivs, hs, he, t) > capacity && forall|u: int| hs <= u < t ==> load(ivs, hs, he, u) <= capacity {
        let i = t - hs;
        assert(table[i].time == t);
        assert forall|j: int| 0 <= j < i implies table[j].usage <= capacity by {
            assert(table[j].time == hs + j);
        }
    }
    if forall|i: int| 0 <= i < table.len() ==> table[i].usage <= capacity {
        assert forall|u: int| hs <= u < he implies load(ivs, hs, he, u) <= capacity by {
            assert(table[u - hs].time == u);
        }
    }
    if forall|u: int| hs <= u < he ==> load(ivs, hs, he, u) <= capacity {
        assert forall|i: int| 0 <= i < table.len() implies table[i].usage <= capacity by {
            assert(table[i].time == hs + i);
        }
    }
}

} // verus!
