//! DFA-based regular constraint, compiled to the table of its accepted tuples.
use vstd::prelude::*;

use crate::domain::{seq_has, DomainStore, PropagationStatus, VariableId};
use crate::solutions::{assignment_in, has_solution, keeps};

verus! {

/// Concatenation of the accepted suffixes contributed by the first `c` columns of
/// `row`, each suffix prefixed with its column's symbol `c + 1`; a column whose next
/// state is outside `1..=num_states` contributes nothing.
pub open spec fn walks_upto(
    ts: Seq<Seq<i32>>,
    num_states: int,
    acc: Seq<i32>,
    k: nat,
    row: Seq<i32>,
    c: int,
) -> Seq<Seq<i32>>
    decreases k, c,
{
    if c <= 0 || c > row.len() || k == 0 {
        Seq::empty()
    } else {
        let before = walks_upto(ts, num_states, acc, k, row, c - 1);
        let next = row[c - 1];
        if next <= 0 || next > num_states {
            before
        } else {
            let sub: Seq<Seq<i32>> = if k - 1 == 0 {
                if acc.contains(next) { seq![Seq::<i32>::empty()] } else { Seq::empty() }
            } else if 1 <= next <= ts.len() {
                walks_upto(ts, num_states, acc, (k - 1) as nat, ts[next - 1], ts[next - 1].len() as int)
            } else {
                Seq::empty()
            };
            before + sub.map_values(|w: Seq<i32>| seq![c as i32] + w)
        }
    }
}

/// The symbol sequences of length `k` that drive the automaton from `state` into an
/// accepting state, in lexicographic order of their symbols.
pub open spec fn walks(ts: Seq<Seq<i32>>, num_states: int, acc: Seq<i32>, state: int, k: nat) -> Seq<Seq<i32>> {
    if k == 0 {
        if acc.contains(state as i32) { seq![Seq::<i32>::empty()] } else { Seq::empty() }
    } else if 1 <= state <= ts.len() {
        walks_upto(ts, num_states, acc, k, ts[state - 1], ts[state - 1].len() as int)
    } else {
        Seq::empty()
    }
}

fn slice_contains(values: &[i32], v: i32) -> (r: bool)
    ensures
        r == values@.contains(v),
{
    let mut i: usize = 0;
    while i < values.len()
        invariant
            0 <= i <= values.len(),
            forall|j: int| 0 <= j < i ==> values@[j] != v,
        decreases values.len() - i,
    {
        if values[i] == v {
            return true;
        }
        i = i + 1;
    }
    false
}

/// Enumerates, in lexicographic order, the words of `length` symbols that the automaton
/// `transitions` accepts from `start` (row `q - 1` gives the successor of state `q` for
/// symbols `1..=row.len()`; successors outside `1..=num_states` mean no transition).
pub fn enumerate_accepting_tuples(
    length: usize,
    num_states: usize,
    transitions: &[Vec<i32>],
    start: i32,
    accepting: &[i32],
) -> (tuples: Vec<Vec<i32>>)
    ensures
        tuples@.map_values(|t: Vec<i32>| t@) == walks(
            transitions@.map_values(|r: Vec<i32>| r@),
            num_states as int,
            accepting@,
            start as int,
            length as nat,
        ),
{
    let ghost ts = transitions@.map_values(|r: Vec<i32>| r@);
    let mut tuples: Vec<Vec<i32>> = Vec::new();
    assert(tuples@.map_values(|t: Vec<i32>| t@) =~= Seq::<Seq<i32>>::empty());
    dfs_tuple(&mut tuples, transitions, num_states, start, accepting, length, Vec::new());
    proof {
        let w = walks(ts, num_states as int, accepting@, start as int, length as nat);
        let e = w.map_values(|x: Seq<i32>| Seq::<i32>::empty() + x);
        assert(e =~= w) by {
            assert forall|i: int| 0 <= i < w.len() implies #[trigger] e[i] == w[i] by {
                assert(Seq::<i32>::empty() + w[i] =~= w[i]);
            }
        }
        assert(Seq::<Seq<i32>>::empty() + e =~= w);
    }
    tuples
}

/// Appends to `out` every accepted walk of `remaining` symbols from `state`, each behind `prefix`.
fn dfs_tuple(
    out: &mut Vec<Vec<i32>>,
    transitions: &[Vec<i32>],
    num_states: usize,
    state: i32,
    accepting: &[i32],
    remaining: usize,
    prefix: Vec<i32>,
)
    ensures
        final(out)@.map_values(|t: Vec<i32>| t@) == old(out)@.map_values(|t: Vec<i32>| t@) + walks(
            transitions@.map_values(|r: Vec<i32>| r@),
            num_states as int,
            accepting@,
            state as int,
            remaining as nat,
        ).map_values(|w: Seq<i32>| prefix@ + w),
    decreases remaining,
{
    let ghost ts = transitions@.map_values(|r: Vec<i32>| r@);
    let ghost old_out = out@.map_values(|t: Vec<i32>| t@);
    if remaining == 0 {
        if slice_contains(accepting, state) {
            out.push(prefix);
            assert(out@.map_values(|t: Vec<i32>| t@) =~= old_out + seq![Seq::<i32>::empty()].map_values(|w: Seq<i32>| prefix@ + w));
        } else {
            assert(out@.map_values(|t: Vec<i32>| t@) =~= old_out + Seq::<Seq<i32>>::empty().map_values(|w: Seq<i32>| prefix@ + w));
        }
        return;
    }
    if state < 1 || state as usize > transitions.len() {
        assert(out@.map_values(|t: Vec<i32>| t@) =~= old_out + Seq::<Seq<i32>>::empty().map_values(|w: Seq<i32>| prefix@ + w));
        return;
    }
    let row = &transitions[(state - 1) as usize];
    let ghost rs = row@;
    assert(rs == ts[state - 1]);
    assert(out@.map_values(|t: Vec<i32>| t@) =~= old_out + walks_upto(ts, num_states as int, accepting@, remaining as nat, rs, 0).map_values(
        |w: Seq<i32>| prefix@ + w,
    ));
    let mut col: usize = 0;
    while col < row.len()
        invariant
            0 <= col <= row@.len(),
            rs == row@,
            ts == transitions@.map_values(|r: Vec<i32>| r@),
            remaining > 0,
            out@.map_values(|t: Vec<i32>| t@) == old_out + walks_upto(
                ts,
                num_states as int,
                accepting@,
                remaining as nat,
                rs,
                col as int,
            ).map_values(|w: Seq<i32>| prefix@ + w),
        decreases row@.len() - col,
    {
        let next = row[col];
        let ghost before = out@.map_values(|t: Vec<i32>| t@);
        if next <= 0 || next as usize > num_states {
            assert(walks_upto(ts, num_states as int, accepting@, remaining as nat, rs, col + 1) == walks_upto(
                ts,
                num_states as int,
                accepting@,
                remaining as nat,
                rs,
                col as int,
            ));
        } else {
            let mut next_prefix = prefix.clone();
            assert(next_prefix@ == prefix@);
            next_prefix.push((col + 1) as i32);
            let ghost np = next_prefix@;
            dfs_tuple(out, transitions, num_states, next, accepting, remaining - 1, next_prefix);
            proof {
                let sub = walks(ts, num_states as int, accepting@, next as int, (remaining - 1) as nat);
                let f = |w: Seq<i32>| prefix@ + w;
                let g = |w: Seq<i32>| seq![(col + 1) as i32] + w;
                let h = |w: Seq<i32>| np + w;
                let lhs = sub.map_values(h);
                let rhs = sub.map_values(g).map_values(f);
                assert(lhs =~= rhs) by {
                    assert forall|i: int| 0 <= i < sub.len() implies #[trigger] lhs[i] == rhs[i] by {
                        assert(np + sub[i] =~= prefix@ + (seq![(col + 1) as i32] + sub[i]));
                    }
                }
                let a = walks_upto(ts, num_states as int, accepting@, remaining as nat, rs, col as int);
                assert(walks_upto(ts, num_states as int, accepting@, remaining as nat, rs, col + 1) == a + sub.map_values(g));
                assert((a + sub.map_values(g)).map_values(f) =~= a.map_values(f) + sub.map_values(g).map_values(f));
            }
        }
        col = col + 1;
    }
}

/// Tuple `t` gives every variable of `vars` a value of its domain in `s`.
pub open spec fn fits(t: Seq<i32>, s: Seq<Set<int>>, vars: Seq<VariableId>) -> bool {
    &&& t.len() == vars.len()
    &&& forall|i: int| 0 <= i < vars.len() ==> #[trigger] s[vars[i].index as int].contains(t[i] as int)
}

/// Some tuple of the table that fits `s` has `v` at position `i`.
pub open spec fn supported(tuples: Seq<Seq<i32>>, s: Seq<Set<int>>, vars: Seq<VariableId>, i: int, v: int) -> bool {
    exists|k: int| 0 <= k < tuples.len() && fits(tuples[k], s, vars) && tuples[k][i] as int == v
}

/// Some tuple of the table fits `s`.
pub open spec fn some_fit(tuples: Seq<Seq<i32>>, s: Seq<Set<int>>, vars: Seq<VariableId>) -> bool {
    exists|k: int| 0 <= k < tuples.len() && fits(tuples[k], s, vars)
}

/// The values of `d` that some tuple fitting `s0` has at position `i`.
pub open spec fn supported_part(
    d: Set<int>,
    tuples: Seq<Seq<i32>>,
    s0: Seq<Set<int>>,
    vars: Seq<VariableId>,
    i: int,
) -> Set<int> {
    d.filter(|v: int| supported(tuples, s0, vars, i, v))
}

/// The store after positions `0..n`, in order, have kept only the values that some
/// tuple fitting `s0` supports.
pub open spec fn table_filtered(
    s0: Seq<Set<int>>,
    tuples: Seq<Seq<i32>>,
    vars: Seq<VariableId>,
    n: nat,
) -> Seq<Set<int>>
    decreases n,
{
    if n == 0 {
        s0
    } else {
        let prev = table_filtered(s0, tuples, vars, (n - 1) as nat);
        let x = vars[n - 1].index as int;
        prev.update(x, supported_part(prev[x], tuples, s0, vars, n - 1))
    }
}

/// The table constraint: the variables take, position by position, the values of one
/// of the tuples.
pub open spec fn table_holds(tuples: Seq<Seq<i32>>, vars: Seq<VariableId>) -> spec_fn(Seq<int>) -> bool {
    |sigma: Seq<int>|
        exists|k: int|
            0 <= k < tuples.len() && tuples[k].len() == vars.len() && forall|i: int|
                0 <= i < vars.len() ==> #[trigger] sigma[vars[i].index as int] == tuples[k][i] as int
}

/// Every variable of `vars` is a variable of a store of `n` variables.
pub open spec fn vars_in(vars: Seq<VariableId>, n: int) -> bool {
    forall|i: int| 0 <= i < vars.len() ==> #[trigger] vars[i].index < n
}

/// Whether `t` fits the current domains.
fn tuple_fits(store: &DomainStore, vars: &Vec<VariableId>, t: &Vec<i32>) -> (r: bool)
    requires
        vars_in(vars@, store@.len() as int),
    ensures
        r == fits(t@, store@, vars@),
{
    if t.len() != vars.len() {
        return false;
    }
    let mut i: usize = 0;
    while i < vars.len()
        invariant
            0 <= i <= vars@.len(),
            t@.len() == vars@.len(),
            vars_in(vars@, store@.len() as int),
            forall|j: int| 0 <= j < i ==> #[trigger] store@[vars@[j].index as int].contains(t@[j] as int),
        decreases vars@.len() - i,
    {
        if !store.contains(vars[i], t[i]) {
            return false;
        }
        i = i + 1;
    }
    true
}

/// Whether some tuple marked alive has `v` at position `i`.
fn alive_has(tuples: &Vec<Vec<i32>>, alive: &Vec<bool>, i: usize, v: i32) -> (r: bool)
    requires
        alive@.len() == tuples@.len(),
    ensures
        r == exists|k: int| 0 <= k < tuples@.len() && alive@[k] && tuples@[k]@.len() > i && tuples@[k]@[i as int] == v,
{
    let mut k: usize = 0;
    while k < tuples.len()
        invariant
            0 <= k <= tuples@.len(),
            alive@.len() == tuples@.len(),
            forall|j: int| 0 <= j < k ==> !(alive@[j] && tuples@[j]@.len() > i && tuples@[j]@[i as int] == v),
        decreases tuples@.len() - k,
    {
        if alive[k] && tuples[k].len() > i && tuples[k][i] == v {
            return true;
        }
        k = k + 1;
    }
    false
}

/// An alive tuple with `v` at position `i` is exactly a fitting tuple supporting `v`.
proof fn lemma_alive_supported(
    ts: Seq<Seq<i32>>,
    tuples: Seq<Vec<i32>>,
    alive: Seq<bool>,
    s0: Seq<Set<int>>,
    vars: Seq<VariableId>,
    i: int,
    v: i32,
)
    requires
        ts == tuples.map_values(|t: Vec<i32>| t@),
        alive.len() == ts.len(),
        forall|q: int| 0 <= q < ts.len() ==> alive[q] == fits(#[trigger] ts[q], s0, vars),
        0 <= i < vars.len(),
    ensures
        (exists|k: int| 0 <= k < tuples.len() && alive[k] && tuples[k]@.len() > i && tuples[k]@[i] == v) == supported(
            ts,
            s0,
            vars,
            i,
            v as int,
        ),
{
    if exists|k: int| 0 <= k < tuples.len() && alive[k] && tuples[k]@.len() > i && tuples[k]@[i] == v {
        let k = choose|k: int| 0 <= k < tuples.len() && alive[k] && tuples[k]@.len() > i && tuples[k]@[i] == v;
        assert(ts[k] == tuples[k]@);
        assert(fits(ts[k], s0, vars));
    }
    if supported(ts, s0, vars, i, v as int) {
        let k = choose|k: int| 0 <= k < ts.len() && fits(ts[k], s0, vars) && ts[k][i] as int == v;
        assert(ts[k] == tuples[k]@);
        assert(alive[k]);
    }
}

/// The first `j + 1` entries hold what the first `j` hold and the entry at `j`.
pub proof fn lemma_seq_has_take(r: Seq<i32>, j: int)
    requires
        0 <= j < r.len(),
    ensures
        forall|u: int| #[trigger] seq_has(r.take(j + 1), u) == (seq_has(r.take(j), u) || u == r[j]),
{
    assert forall|u: int| #[trigger] seq_has(r.take(j + 1), u) == (seq_has(r.take(j), u) || u == r[j]) by {
        if seq_has(r.take(j + 1), u) {
            let k = choose|k: int| 0 <= k < r.take(j + 1).len() && #[trigger] r.take(j + 1)[k] == u;
            if k < j {
                assert(r.take(j)[k] == u);
            }
        }
        if seq_has(r.take(j), u) {
            let k = choose|k: int| 0 <= k < r.take(j).len() && #[trigger] r.take(j)[k] == u;
            assert(r.take(j + 1)[k] == u);
        }
        if u == r[j] {
            assert(r.take(j + 1)[j] == u);
        }
    }
}

/// DFA-based regular constraint compiled to the table of its accepted tuples.
pub struct RegularPropagator {
    /// The sequence of variables read as a word.
    pub variables: Vec<VariableId>,
    /// The accepted words of the automaton of the variables' length.
    pub tuples: Vec<Vec<i32>>,
}

impl RegularPropagator {
    /// Creates a regular propagator from a transition matrix (row `q - 1` holds the
    /// successors of state `q`).
    pub fn new(
        variables: Vec<VariableId>,
        num_states: usize,
        transitions: Vec<Vec<i32>>,
        start_state: i32,
        accepting: &[i32],
    ) -> (p: Self)
        ensures
            p.variables@ == variables@,
            p.tuples@.map_values(|t: Vec<i32>| t@) == walks(
                transitions@.map_values(|r: Vec<i32>| r@),
                num_states as int,
                accepting@,
                start_state as int,
                variables@.len() as nat,
            ),
    {
        let tuples = enumerate_accepting_tuples(variables.len(), num_states, &transitions, start_state, accepting);
        RegularPropagator { variables, tuples }
    }

    /// The variables whose domains this propagator reads.
    pub fn watched_variables(&self) -> (w: &Vec<VariableId>)
        ensures
            w@ == self.variables@,
    {
        &self.variables
    }

    /// Keeps, position by position, the values that some accepted word fitting the
    /// current domains uses there; fails, leaving the store as it was, when no accepted
    /// word fits.
    pub fn propagate(&mut self, store: &mut DomainStore) -> (status: PropagationStatus)
        requires
            vars_in(old(self).variables@, old(store)@.len() as int),
        ensures
            *final(self) == *old(self),
            ({
                let ts = old(self).tuples@.map_values(|t: Vec<i32>| t@);
                let vars = old(self).variables@;
                if !some_fit(ts, old(store)@, vars) {
                    &&& final(store)@ == old(store)@
                    &&& status == PropagationStatus::Failure
                } else {
                    &&& final(store)@ == table_filtered(old(store)@, ts, vars, vars.len())
                    &&& status == (if exists|i: int| 0 <= i < vars.len() && #[trigger] final(store)@[vars[i].index as int].is_empty() {
                        PropagationStatus::Failure
                    } else if final(store)@ != old(store)@ {
                        PropagationStatus::OkChanged
                    } else {
                        PropagationStatus::OkNoChange
                    })
                }
            }),
    {
        let ghost ts = self.tuples@.map_values(|t: Vec<i32>| t@);
        let ghost vars = self.variables@;
        let ghost s0 = store@;
        let n = self.variables.len();
        let mut alive: Vec<bool> = Vec::new();
        let mut any = false;
        let mut k: usize = 0;
        while k < self.tuples.len()
            invariant
                0 <= k <= self.tuples@.len(),
                ts == self.tuples@.map_values(|t: Vec<i32>| t@),
                vars == self.variables@,
                store@ == s0,
                vars_in(vars, s0.len() as int),
                alive@.len() == k,
                forall|j: int| 0 <= j < k ==> alive@[j] == fits(#[trigger] ts[j], s0, vars),
                any == exists|j: int| 0 <= j < k && fits(#[trigger] ts[j], s0, vars),
            decreases self.tuples@.len() - k,
        {
            let fit = tuple_fits(store, &self.variables, &self.tuples[k]);
            proof {
                assert(ts[k as int] == self.tuples@[k as int]@);
            }
            alive.push(fit);
            if fit {
                any = true;
            }
            k = k + 1;
        }
        if !any {
            return PropagationStatus::Failure;
        }
        let mut changed = false;
        proof {
            assert(crate::domain::narrows(s0, s0));
        }
        let mut i: usize = 0;
        while i < n
            invariant
                0 <= i <= n,
                n == vars.len(),
                ts == self.tuples@.map_values(|t: Vec<i32>| t@),
                vars == self.variables@,
                vars_in(vars, s0.len() as int),
                alive@.len() == ts.len(),
                forall|j: int| 0 <= j < ts.len() ==> alive@[j] == fits(#[trigger] ts[j], s0, vars),
                store@ == table_filtered(s0, ts, vars, i as nat),
                changed == (store@ != s0),
                crate::domain::narrows(s0, store@),
            decreases n - i,
        {
            let x = self.variables[i];
            let ghost prev = store@;
            let values = store.values(x);
            proof {
                assert(prev.update(x.index as int, prev[x.index as int].filter(|u: int|
                    supported(ts, s0, vars, i as int, u) || !seq_has(values@.take(0), u))) =~= prev) by {
                    assert(prev[x.index as int].filter(|u: int|
                        supported(ts, s0, vars, i as int, u) || !seq_has(values@.take(0), u)) =~= prev[x.index as int]);
                }
            }
            let mut j: usize = 0;
            while j < values.len()
                invariant
                    0 <= j <= values@.len(),
                    i < n,
                    n == vars.len(),
                    vars == self.variables@,
                    x == vars[i as int],
                    ts == self.tuples@.map_values(|t: Vec<i32>| t@),
                    alive@.len() == ts.len(),
                    forall|q: int| 0 <= q < ts.len() ==> alive@[q] == fits(#[trigger] ts[q], s0, vars),
                    x.index < prev.len(),
                    store@ == prev.update(x.index as int, prev[x.index as int].filter(|u: int|
                        supported(ts, s0, vars, i as int, u) || !seq_has(values@.take(j as int), u))),
                    changed == (store@ != s0),
                    crate::domain::narrows(s0, store@),
                decreases values@.len() - j,
            {
                let v = values[j];
                let keep = alive_has(&self.tuples, &alive, i, v);
                proof {
                    lemma_alive_supported(ts, self.tuples@, alive@, s0, vars, i as int, v);
                    lemma_seq_has_take(values@, j as int);
                }
                let ghost cur = store@;
                if !keep {
                    let step = store.remove_value(x, v);
                    proof {
                        crate::domain::lemma_narrow_step(s0, cur, store@, changed, step);
                    }
                    changed = changed || step;
                }
                proof {
                    let before = prev[x.index as int].filter(|u: int|
                        supported(ts, s0, vars, i as int, u) || !seq_has(values@.take(j as int), u));
                    let after = prev[x.index as int].filter(|u: int|
                        supported(ts, s0, vars, i as int, u) || !seq_has(values@.take(j + 1), u));
                    if keep {
                        assert(after =~= before);
                    } else {
                        assert(after =~= before.remove(v as int));
                    }
                    assert(store@ =~= prev.update(x.index as int, after));
                }
                j = j + 1;
            }
            proof {
                let last = prev[x.index as int].filter(|u: int|
                    supported(ts, s0, vars, i as int, u) || !seq_has(values@.take(j as int), u));
                assert(values@.take(j as int) =~= values@);
                assert(last =~= supported_part(prev[x.index as int], ts, s0, vars, i as int));
            }
            i = i + 1;
        }
        let mut p: usize = 0;
        let mut empty = false;
        while p < n
            invariant
                0 <= p <= n,
                n == vars.len(),
                vars == self.variables@,
                vars_in(vars, store@.len() as int),
                empty == exists|q: int| 0 <= q < p && #[trigger] store@[vars[q].index as int].is_empty(),
            decreases n - p,
        {
            if store.is_empty(self.variables[p]) {
                empty = true;
            }
            p = p + 1;
        }
        if empty {
            PropagationStatus::Failure
        } else if changed {
            PropagationStatus::OkChanged
        } else {
            PropagationStatus::OkNoChange
        }
    }
}

/// A solution of the table keeps its values through the first `n` positions' filtering.
proof fn lemma_table_filtered_keeps(
    s0: Seq<Set<int>>,
    ts: Seq<Seq<i32>>,
    vars: Seq<VariableId>,
    n: nat,
    sigma: Seq<int>,
    k: int,
)
    requires
        n <= vars.len(),
        vars_in(vars, s0.len() as int),
        assignment_in(s0, sigma),
        0 <= k < ts.len(),
        ts[k].len() == vars.len(),
        forall|i: int| 0 <= i < vars.len() ==> #[trigger] sigma[vars[i].index as int] == ts[k][i] as int,
    ensures
        assignment_in(table_filtered(s0, ts, vars, n), sigma),
    decreases n,
{
    if n > 0 {
        lemma_table_filtered_keeps(s0, ts, vars, (n - 1) as nat, sigma, k);
        let prev = table_filtered(s0, ts, vars, (n - 1) as nat);
        let x = vars[n - 1].index as int;
        assert(fits(ts[k], s0, vars)) by {
            assert forall|i: int| 0 <= i < vars.len() implies #[trigger] s0[vars[i].index as int].contains(ts[k][i] as int) by {
                assert(sigma[vars[i].index as int] == ts[k][i] as int);
                assert(vars[i].index < s0.len());
                assert(s0[vars[i].index as int].contains(sigma[vars[i].index as int]));
            }
        }
        assert(sigma[vars[n - 1].index as int] == ts[k][n - 1] as int);
        assert(supported(ts, s0, vars, n - 1, sigma[x]));
        let cur = table_filtered(s0, ts, vars, n);
        assert forall|i: int| 0 <= i < s0.len() implies #[trigger] cur[i].contains(sigma[i]) by {
            assert(prev[i].contains(sigma[i]));
        }
    }
}

/// `sigma` gives each variable of `vars` a value of its domain in `s`.
pub open spec fn vars_assigned(s: Seq<Set<int>>, vars: Seq<VariableId>, sigma: Seq<int>) -> bool {
    forall|i: int| 0 <= i < vars.len() ==> #[trigger] s[vars[i].index as int].contains(sigma[vars[i].index as int])
}

proof fn lemma_table_filtered_keeps_on(
    s0: Seq<Set<int>>,
    ts: Seq<Seq<i32>>,
    vars: Seq<VariableId>,
    n: nat,
    sigma: Seq<int>,
    k: int,
)
    requires
        n <= vars.len(),
        vars_in(vars, s0.len() as int),
        vars_assigned(s0, vars, sigma),
        0 <= k < ts.len(),
        ts[k].len() == vars.len(),
        forall|i: int| 0 <= i < vars.len() ==> #[trigger] sigma[vars[i].index as int] == ts[k][i] as int,
    ensures
        vars_assigned(table_filtered(s0, ts, vars, n), vars, sigma),
        table_filtered(s0, ts, vars, n).len() == s0.len(),
    decreases n,
{
    if n > 0 {
        lemma_table_filtered_keeps_on(s0, ts, vars, (n - 1) as nat, sigma, k);
        let prev = table_filtered(s0, ts, vars, (n - 1) as nat);
        let x = vars[n - 1].index as int;
        assert(fits(ts[k], s0, vars)) by {
            assert forall|i: int| 0 <= i < vars.len() implies #[trigger] s0[vars[i].index as int].contains(ts[k][i] as int) by {
                assert(sigma[vars[i].index as int] == ts[k][i] as int);
                assert(s0[vars[i].index as int].contains(sigma[vars[i].index as int]));
            }
        }
        assert(sigma[vars[n - 1].index as int] == ts[k][n - 1] as int);
        assert(supported(ts, s0, vars, n - 1, sigma[x]));
        let cur = table_filtered(s0, ts, vars, n);
        assert forall|i: int| 0 <= i < vars.len() implies #[trigger] cur[vars[i].index as int].contains(
            sigma[vars[i].index as int],
        ) by {
            assert(prev[vars[i].index as int].contains(sigma[vars[i].index as int]));
        }
    }
}

/// Filtering by the table keeps the values of every assignment of its variables (from
/// their domains) that the table admits, whatever the other domains hold; such an
/// assignment makes some tuple fit.
pub proof fn law_table_keeps_assignments(s0: Seq<Set<int>>, ts: Seq<Seq<i32>>, vars: Seq<VariableId>, sigma: Seq<int>)
    requires
        vars_in(vars, s0.len() as int),
        vars_assigned(s0, vars, sigma),
        (table_holds(ts, vars))(sigma),
    ensures
        vars_assigned(table_filtered(s0, ts, vars, vars.len()), vars, sigma),
        some_fit(ts, s0, vars),
{
    let k = choose|k: int|
        0 <= k < ts.len() && ts[k].len() == vars.len() && forall|i: int|
            0 <= i < vars.len() ==> #[trigger] sigma[vars[i].index as int] == ts[k][i] as int;
    lemma_table_filtered_keeps_on(s0, ts, vars, vars.len(), sigma, k);
    assert(fits(ts[k], s0, vars)) by {
        assert forall|i: int| 0 <= i < vars.len() implies #[trigger] s0[vars[i].index as int].contains(ts[k][i] as int) by {
            assert(sigma[vars[i].index as int] == ts[k][i] as int);
            assert(s0[vars[i].index as int].contains(sigma[vars[i].index as int]));
        }
    }
}

/// Filtering by the table keeps every solution of the table, and without a fitting
/// tuple there is no solution.
pub proof fn law_table_keeps_solutions(s0: Seq<Set<int>>, ts: Seq<Seq<i32>>, vars: Seq<VariableId>)
    requires
        vars_in(vars, s0.len() as int),
    ensures
        keeps(s0, table_filtered(s0, ts, vars, vars.len()), table_holds(ts, vars)),
        !some_fit(ts, s0, vars) ==> !has_solution(s0, table_holds(ts, vars)),
{
    let c = table_holds(ts, vars);
    assert forall|sigma: Seq<int>| assignment_in(s0, sigma) && #[trigger] c(sigma) implies assignment_in(
        table_filtered(s0, ts, vars, vars.len()),
        sigma,
    ) && some_fit(ts, s0, vars) by {
        let k = choose|k: int|
            0 <= k < ts.len() && ts[k].len() == vars.len() && forall|i: int|
                0 <= i < vars.len() ==> #[trigger] sigma[vars[i].index as int] == ts[k][i] as int;
        lemma_table_filtered_keeps(s0, ts, vars, vars.len(), sigma, k);
        assert(fits(ts[k], s0, vars)) by {
            assert forall|i: int| 0 <= i < vars.len() implies #[trigger] s0[vars[i].index as int].contains(ts[k][i] as int) by {
                assert(sigma[vars[i].index as int] == ts[k][i] as int);
                assert(s0[vars[i].index as int].contains(sigma[vars[i].index as int]));
            }
        }
    }
}

} // verus!
