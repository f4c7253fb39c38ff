//! Global cardinality: each value occurs within its bounds among the variables.
use vstd::prelude::*;

use crate::domain::{
    between, lemma_narrow_step, lemma_narrows_trans, lemma_total_size_narrows, lemma_update_narrows, narrows,
    seq_has, total_size, DomainStore, PropagationStatus, VariableId,
};
use crate::inverse::{any_empty, some_var_empty, vars_in_range};
use crate::linear_scalar::{lemma_sorted_elems_of, sorted_elems};
use crate::solutions::assignment_in;

verus! {

/// Cardinality bounds for a single value.
#[derive(Clone, Copy, Debug, PartialEq, Eq, Structural)]
pub struct CardinalityBound {
    /// Minimum occurrences of the value.
    pub min: i32,
    /// Maximum occurrences of the value.
    pub max: i32,
}

impl CardinalityBound {
    /// Creates bounds with the same minimum and maximum.
    pub fn exact(count: i32) -> (b: Self)
        ensures
            b.min == count,
            b.max == count,
    {
        CardinalityBound { min: count, max: count }
    }

    /// Creates inclusive bounds.
    pub fn range(min: i32, max: i32) -> (b: Self)
        ensures
            b.min == min,
            b.max == max,
    {
        CardinalityBound { min, max }
    }
}

/// The bounds of `value`: those of the last entry for `value` in `cards`, else `0..=n`.
pub open spec fn card_bounds(cards: Seq<(i32, CardinalityBound)>, value: int, n: int) -> (int, int)
    decreases cards.len(),
{
    if cards.len() == 0 {
        (0, n)
    } else if cards.last().0 == value {
        (cards.last().1.min as int, cards.last().1.max as int)
    } else {
        card_bounds(cards.drop_last(), value, n)
    }
}

/// The values that have an entry in `cards`.
pub open spec fn card_keys(cards: Seq<(i32, CardinalityBound)>) -> Set<int> {
    Set::new(|v: int| exists|i: int| 0 <= i < cards.len() && cards[i].0 == v)
}

/// The values in the domains of `vars`.
pub open spec fn domain_union(s: Seq<Set<int>>, vars: Seq<VariableId>) -> Set<int> {
    Set::new(|v: int| exists|i: int| 0 <= i < vars.len() && s[vars[i].index as int].contains(v))
}

/// The values a round of propagation looks at: those with an entry in `cards` and
/// those in the domains of `vars`.
pub open spec fn relevant_values(s: Seq<Set<int>>, vars: Seq<VariableId>, cards: Seq<(i32, CardinalityBound)>) -> Set<int> {
    card_keys(cards).union(domain_union(s, vars))
}

/// A domain that holds `value` among other values.
pub open spec fn is_open(d: Set<int>, value: int) -> bool {
    d.contains(value) && d != set![value]
}

/// Number of positions of `vars` whose domain is exactly `{value}`.
pub open spec fn fixed_count(s: Seq<Set<int>>, vars: Seq<VariableId>, value: int) -> nat
    decreases vars.len(),
{
    if vars.len() == 0 {
        0
    } else {
        fixed_count(s, vars.drop_last(), value) + if s[vars.last().index as int] == set![value] { 1nat } else { 0nat }
    }
}

/// Number of positions of `vars` whose domain is open for `value`.
pub open spec fn open_count(s: Seq<Set<int>>, vars: Seq<VariableId>, value: int) -> nat
    decreases vars.len(),
{
    if vars.len() == 0 {
        0
    } else {
        open_count(s, vars.drop_last(), value) + if is_open(s[vars.last().index as int], value) { 1nat } else { 0nat }
    }
}

/// The variable `j` occurs in `vars` and its domain is open for `value`.
pub open spec fn open_in(s: Seq<Set<int>>, vars: Seq<VariableId>, j: int, value: int) -> bool {
    (exists|i: int| 0 <= i < vars.len() && vars[i].index == j) && is_open(s[j], value)
}

/// Checks `value` against its bounds `lo..=hi`: fails when more than `hi` variables are
/// fixed to it or fewer than `lo` may take it; otherwise removes it from the open
/// variables when `hi` are fixed to it, and fixes the open variables to it when exactly
/// `lo` may take it. The flag is `false` on failure, with the store unchanged.
pub open spec fn gcc_value_step(s: Seq<Set<int>>, vars: Seq<VariableId>, value: int, lo: int, hi: int) -> (Seq<Set<int>>, bool) {
    let fc = fixed_count(s, vars, value) as int;
    let pc = fc + open_count(s, vars, value);
    if fc > hi || pc < lo {
        (s, false)
    } else {
        let s1 = if fc == hi {
            Seq::new(s.len(), |j: int| if open_in(s, vars, j, value) { s[j].remove(value) } else { s[j] })
        } else {
            s
        };
        let s2 = if pc == lo {
            Seq::new(s.len(), |j: int| if open_in(s, vars, j, value) { s1[j].intersect(set![value]) } else { s1[j] })
        } else {
            s1
        };
        (s2, true)
    }
}

/// Applies [`gcc_value_step`] for each value of `vals` in order, stopping at the first
/// failure; the flag tells whether every step passed.
pub open spec fn gcc_fold(s: Seq<Set<int>>, vars: Seq<VariableId>, cards: Seq<(i32, CardinalityBound)>, vals: Seq<int>) -> (Seq<Set<int>>, bool)
    decreases vals.len(),
{
    if vals.len() == 0 {
        (s, true)
    } else {
        let (t, ok) = gcc_fold(s, vars, cards, vals.drop_last());
        if !ok {
            (t, false)
        } else {
            let b = card_bounds(cards, vals.last(), vars.len() as int);
            gcc_value_step(t, vars, vals.last(), b.0, b.1)
        }
    }
}

/// One round: [`gcc_fold`] over the relevant values in increasing order.
pub open spec fn gcc_round(s: Seq<Set<int>>, vars: Seq<VariableId>, cards: Seq<(i32, CardinalityBound)>) -> (Seq<Set<int>>, bool) {
    gcc_fold(s, vars, cards, sorted_elems(relevant_values(s, vars, cards)))
}

/// Store after `k` rounds, stopping at the first failed round; the flag tells whether
/// every round passed.
pub open spec fn gcc_rounds(s: Seq<Set<int>>, vars: Seq<VariableId>, cards: Seq<(i32, CardinalityBound)>, k: nat) -> (Seq<Set<int>>, bool)
    decreases k,
{
    if k == 0 {
        (s, true)
    } else {
        let (t, ok) = gcc_rounds(s, vars, cards, (k - 1) as nat);
        if !ok {
            (t, false)
        } else {
            gcc_round(t, vars, cards)
        }
    }
}

/// `r` is strictly increasing.
pub open spec fn increasing(r: Seq<i32>) -> bool {
    forall|j: int, k: int| 0 <= j < k < r.len() ==> r[j] < r[k]
}

/// Some variable of `list` is the variable `j`.
pub open spec fn in_list(list: Seq<VariableId>, j: int) -> bool {
    exists|k: int| 0 <= k < list.len() && list[k].index == j
}

/// The members of the first `t + 1` entries of `r` are those of the first `t` and
/// `r[t]`.
pub proof fn lemma_seq_has_take_step(r: Seq<i32>, t: int)
    requires
        0 <= t < r.len(),
    ensures
        forall|y: int| seq_has(r.take(t + 1), y) <==> (seq_has(r.take(t), y) || y == r[t]),
{
    let a = r.take(t + 1);
    let b = r.take(t);
    assert forall|y: int| seq_has(a, y) <==> (seq_has(b, y) || y == r[t]) by {
        if seq_has(a, y) {
            let m = choose|m: int| 0 <= m < a.len() && a[m] == y;
            if m < t {
                assert(b[m] == y);
            }
        }
        if seq_has(b, y) {
            let m = choose|m: int| 0 <= m < b.len() && b[m] == y;
            assert(a[m] == y);
        }
        if y == r[t] {
            assert(a[t] == y);
        }
    }
}

/// Once a prefix of `vals` fails, the whole fold ends as that prefix did.
proof fn lemma_fold_stops(s: Seq<Set<int>>, vars: Seq<VariableId>, cards: Seq<(i32, CardinalityBound)>, vals: Seq<int>, m: int)
    requires
        0 <= m <= vals.len(),
        !gcc_fold(s, vars, cards, vals.take(m)).1,
    ensures
        gcc_fold(s, vars, cards, vals) == gcc_fold(s, vars, cards, vals.take(m)),
    decreases vals.len(),
{
    if m == vals.len() {
        assert(vals.take(m) =~= vals);
    } else {
        assert(vals.drop_last().take(m) =~= vals.take(m));
        lemma_fold_stops(s, vars, cards, vals.drop_last(), m);
    }
}

/// Once a round fails, later rounds leave the store as it is.
proof fn lemma_rounds_stop(s: Seq<Set<int>>, vars: Seq<VariableId>, cards: Seq<(i32, CardinalityBound)>, k: nat)
    requires
        !gcc_rounds(s, vars, cards, k).1,
    ensures
        gcc_rounds(s, vars, cards, k + 1) == gcc_rounds(s, vars, cards, k),
{
}

/// Number of positions of `vars` that `sigma` sets to `v`.
pub open spec fn value_count(sigma: Seq<int>, vars: Seq<VariableId>, v: int) -> nat
    decreases vars.len(),
{
    if vars.len() == 0 {
        0
    } else {
        value_count(sigma, vars.drop_last(), v) + if sigma[vars.last().index as int] == v { 1nat } else { 0nat }
    }
}

/// `sigma` meets the bounds of every value that has an entry in `cards`.
pub open spec fn gcc_holds(vars: Seq<VariableId>, cards: Seq<(i32, CardinalityBound)>) -> spec_fn(Seq<int>) -> bool {
    |sigma: Seq<int>|
        forall|v: int| #[trigger]
            card_keys(cards).contains(v) ==> card_bounds(cards, v, vars.len() as int).0 <= value_count(sigma, vars, v)
                <= card_bounds(cards, v, vars.len() as int).1
}

/// A value without an entry has the default bounds.
proof fn lemma_card_bounds_default(cards: Seq<(i32, CardinalityBound)>, v: int, n: int)
    requires
        !card_keys(cards).contains(v),
    ensures
        card_bounds(cards, v, n) == (0int, n),
    decreases cards.len(),
{
    if cards.len() > 0 {
        assert(cards.last() == cards[cards.len() - 1]);
        assert(!card_keys(cards.drop_last()).contains(v)) by {
            if card_keys(cards.drop_last()).contains(v) {
                let i = choose|i: int| 0 <= i < cards.drop_last().len() && cards.drop_last()[i].0 == v;
                assert(cards[i].0 == v);
            }
        }
        lemma_card_bounds_default(cards.drop_last(), v, n);
    }
}

/// The fixed positions take `v` and only the open ones may: so the count of `v` lies
/// between the fixed count and the fixed and open count, and at either end the open
/// positions all avoid or all take `v`.
proof fn lemma_counts(t: Seq<Set<int>>, vars: Seq<VariableId>, v: int, sigma: Seq<int>)
    requires
        assignment_in(t, sigma),
        vars_in_range(vars, t.len()),
    ensures
        fixed_count(t, vars, v) <= value_count(sigma, vars, v) <= fixed_count(t, vars, v) + open_count(t, vars, v),
        value_count(sigma, vars, v) <= vars.len(),
        value_count(sigma, vars, v) == fixed_count(t, vars, v) ==> forall|i: int|
            0 <= i < vars.len() && is_open(t[vars[i].index as int], v) ==> sigma[#[trigger] vars[i].index as int] != v,
        value_count(sigma, vars, v) == fixed_count(t, vars, v) + open_count(t, vars, v) ==> forall|i: int|
            0 <= i < vars.len() && is_open(t[vars[i].index as int], v) ==> sigma[#[trigger] vars[i].index as int] == v,
    decreases vars.len(),
{
    if vars.len() > 0 {
        let pre = vars.drop_last();
        let n = vars.len() - 1;
        assert(vars_in_range(pre, t.len())) by {
            assert forall|i: int| 0 <= i < pre.len() implies (#[trigger] pre[i]).index < t.len() by {
                assert(pre[i] == vars[i]);
            }
        }
        lemma_counts(t, pre, v, sigma);
        let x = vars[n].index as int;
        assert(vars.last() == vars[n]);
        assert(t[x].contains(sigma[x]));
        if t[x] == set![v] {
            assert(sigma[x] == v);
            assert(!is_open(t[x], v));
        } else if !t[x].contains(v) {
            assert(sigma[x] != v);
        }
        let vc = value_count(sigma, vars, v);
        let fc = fixed_count(t, vars, v);
        let oc = open_count(t, vars, v);
        if vc == fc {
            assert forall|i: int| 0 <= i < vars.len() && is_open(t[vars[i].index as int], v) implies sigma[#[trigger] vars[i].index as int] != v by {
                if i < n {
                    assert(pre[i] == vars[i]);
                }
            }
        }
        if vc == fc + oc {
            assert forall|i: int| 0 <= i < vars.len() && is_open(t[vars[i].index as int], v) implies sigma[#[trigger] vars[i].index as int] == v by {
                if i < n {
                    assert(pre[i] == vars[i]);
                }
            }
        }
    }
}

/// A value step whose bounds the count of `sigma` meets passes and keeps `sigma`.
proof fn lemma_value_step_keeps(t: Seq<Set<int>>, vars: Seq<VariableId>, v: int, lo: int, hi: int, sigma: Seq<int>)
    requires
        assignment_in(t, sigma),
        vars_in_range(vars, t.len()),
        lo <= value_count(sigma, vars, v) <= hi,
    ensures
        gcc_value_step(t, vars, v, lo, hi).1,
        assignment_in(gcc_value_step(t, vars, v, lo, hi).0, sigma),
{
    lemma_counts(t, vars, v, sigma);
    let fc = fixed_count(t, vars, v) as int;
    let pc = fc + open_count(t, vars, v);
    let s1 = if fc == hi {
        Seq::new(t.len(), |j: int| if open_in(t, vars, j, v) { t[j].remove(v) } else { t[j] })
    } else {
        t
    };
    assert(assignment_in(s1, sigma)) by {
        assert forall|j: int| 0 <= j < s1.len() implies #[trigger] s1[j].contains(sigma[j]) by {
            assert(t[j].contains(sigma[j]));
            if fc == hi && open_in(t, vars, j, v) {
                let i = choose|i: int| 0 <= i < vars.len() && vars[i].index == j;
                assert(sigma[vars[i].index as int] != v);
            }
        }
    }
    let s2 = if pc == lo {
        Seq::new(t.len(), |j: int| if open_in(t, vars, j, v) { s1[j].intersect(set![v]) } else { s1[j] })
    } else {
        s1
    };
    assert(assignment_in(s2, sigma)) by {
        assert forall|j: int| 0 <= j < s2.len() implies #[trigger] s2[j].contains(sigma[j]) by {
            assert(s1[j].contains(sigma[j]));
            if pc == lo && open_in(t, vars, j, v) {
                let i = choose|i: int| 0 <= i < vars.len() && vars[i].index == j;
                assert(sigma[vars[i].index as int] == v);
            }
        }
    }
}

/// A fold over any values passes and keeps every assignment that meets the bounds.
proof fn lemma_fold_keeps(s: Seq<Set<int>>, vars: Seq<VariableId>, cards: Seq<(i32, CardinalityBound)>, vals: Seq<int>, sigma: Seq<int>)
    requires
        assignment_in(s, sigma),
        vars_in_range(vars, s.len()),
        (gcc_holds(vars, cards))(sigma),
    ensures
        gcc_fold(s, vars, cards, vals).1,
        assignment_in(gcc_fold(s, vars, cards, vals).0, sigma),
    decreases vals.len(),
{
    if vals.len() > 0 {
        lemma_fold_keeps(s, vars, cards, vals.drop_last(), sigma);
        let t = gcc_fold(s, vars, cards, vals.drop_last()).0;
        let v = vals.last();
        let n = vars.len() as int;
        lemma_counts(t, vars, v, sigma);
        if !card_keys(cards).contains(v) {
            lemma_card_bounds_default(cards, v, n);
        }
        let b = card_bounds(cards, v, n);
        lemma_value_step_keeps(t, vars, v, b.0, b.1, sigma);
    }
}

/// A round of global cardinality keeps every solution: on a store that holds an
/// assignment meeting all bounds, the round does not fail and the assignment stays.
pub proof fn law_gcc_round_keeps_solutions(
    s: Seq<Set<int>>,
    vars: Seq<VariableId>,
    cards: Seq<(i32, CardinalityBound)>,
    sigma: Seq<int>,
)
    requires
        vars_in_range(vars, s.len()),
        assignment_in(s, sigma),
        (gcc_holds(vars, cards))(sigma),
    ensures
        gcc_round(s, vars, cards).1,
        assignment_in(gcc_round(s, vars, cards).0, sigma),
{
    lemma_fold_keeps(s, vars, cards, sorted_elems(relevant_values(s, vars, cards)), sigma);
}

/// Propagation never fails while a solution remains: after any number of rounds from a
/// store that holds an assignment meeting all bounds, every round has passed, the
/// assignment is still in the store, and no variable's domain is empty.
pub proof fn law_gcc_propagation_keeps_solutions(
    s: Seq<Set<int>>,
    vars: Seq<VariableId>,
    cards: Seq<(i32, CardinalityBound)>,
    sigma: Seq<int>,
    k: nat,
)
    requires
        vars_in_range(vars, s.len()),
        assignment_in(s, sigma),
        (gcc_holds(vars, cards))(sigma),
    ensures
        gcc_rounds(s, vars, cards, k).1,
        assignment_in(gcc_rounds(s, vars, cards, k).0, sigma),
        !some_var_empty(gcc_rounds(s, vars, cards, k).0, vars),
    decreases k,
{
    if k > 0 {
        law_gcc_propagation_keeps_solutions(s, vars, cards, sigma, (k - 1) as nat);
        let t = gcc_rounds(s, vars, cards, (k - 1) as nat).0;
        law_gcc_round_keeps_solutions(t, vars, cards, sigma);
    }
    let t = gcc_rounds(s, vars, cards, k).0;
    assert(!some_var_empty(t, vars)) by {
        assert forall|i: int| 0 <= i < vars.len() implies !t[(#[trigger] vars[i]).index as int].is_empty() by {
            assert(t[vars[i].index as int].contains(sigma[vars[i].index as int]));
        }
    }
}

/// The values of `var` in increasing order.
pub fn collect_values(store: &DomainStore, var: VariableId) -> (r: Vec<i32>)
    requires
        var.index < store@.len(),
    ensures
        r@.map_values(|v: i32| v as int) == sorted_elems(store@[var.index as int]),
        increasing(r@),
        forall|y: int| seq_has(r@, y) <==> store@[var.index as int].contains(y),
{
    let values = store.values(var);
    proof {
        let d = store@[var.index as int];
        assert forall|y: int| seq_has(values@, y) <==> d.contains(y) by {
            if seq_has(values@, y) {
                let k = choose|k: int| 0 <= k < values@.len() && values@[k] == y;
                assert(d.contains(values@[k] as int));
            }
        }
        lemma_sorted_elems_of(values@, d);
    }
    values
}

/// Inserts `x` into the increasing `v`, unless it is there already.
fn insert_sorted(v: &mut Vec<i32>, x: i32)
    requires
        increasing(old(v)@),
    ensures
        increasing(final(v)@),
        forall|y: int| seq_has(final(v)@, y) <==> (seq_has(old(v)@, y) || y == x),
{
    let mut i: usize = 0;
    while i < v.len() && v[i] < x
        invariant
            0 <= i <= v@.len(),
            v@ == old(v)@,
            forall|k: int| 0 <= k < i ==> v@[k] < x,
        decreases v@.len() - i,
    {
        i = i + 1;
    }
    if i < v.len() && v[i] == x {
        proof {
            assert(seq_has(v@, x as int));
        }
        return;
    }
    let ghost o = v@;
    proof {
        o.insert_ensures(i as int, x);
    }
    v.insert(i, x);
    proof {
        let n = v@;
        assert(n == o.insert(i as int, x));
        assert forall|j: int, k: int| 0 <= j < k < n.len() implies n[j] < n[k] by {
            if k < i {
                assert(n[j] == o[j] && n[k] == o[k]);
            } else if k == i {
                assert(n[j] == o[j]);
            } else {
                assert(n[k] == o[k - 1]);
                if j < i {
                    assert(n[j] == o[j]);
                } else if j == i {
                    assert(o[i as int] >= x && o[i as int] != x);
                    assert(o[i as int] <= o[k - 1]);
                } else {
                    assert(n[j] == o[j - 1]);
                }
            }
        }
        assert forall|y: int| seq_has(n, y) <==> (seq_has(o, y) || y == x) by {
            if seq_has(n, y) {
                let k = choose|k: int| 0 <= k < n.len() && n[k] == y;
                if k < i {
                    assert(n[k] == o[k]);
                } else if k > i {
                    assert(n[k] == o[k - 1]);
                }
            }
            if seq_has(o, y) {
                let k = choose|k: int| 0 <= k < o.len() && o[k] == y;
                if k < i {
                    assert(n[k] == o[k]);
                } else {
                    assert(n[k + 1] == o[k]);
                }
            }
            if y == x {
                assert(n[i as int] == x);
            }
        }
    }
}

/// The relevant values of a round in increasing order: see [`relevant_values`].
pub fn collect_relevant_values(store: &DomainStore, variables: &Vec<VariableId>, cards: &Vec<(i32, CardinalityBound)>) -> (r: Vec<i32>)
    requires
        vars_in_range(variables@, store@.len()),
    ensures
        r@.map_values(|v: i32| v as int) == sorted_elems(relevant_values(store@, variables@, cards@)),
{
    let mut values: Vec<i32> = Vec::new();
    let mut i: usize = 0;
    while i < cards.len()
        invariant
            0 <= i <= cards@.len(),
            increasing(values@),
            forall|y: int| seq_has(values@, y) <==> (exists|k: int| 0 <= k < i && cards@[k].0 == y),
        decreases cards@.len() - i,
    {
        let ghost before = values@;
        insert_sorted(&mut values, cards[i].0);
        proof {
            assert forall|y: int| seq_has(values@, y) <==> (exists|k: int| 0 <= k < i + 1 && cards@[k].0 == y) by {
                if seq_has(values@, y) && !seq_has(before, y) {
                    assert(cards@[i as int].0 == y);
                }
                if exists|k: int| 0 <= k < i + 1 && cards@[k].0 == y {
                    let k = choose|k: int| 0 <= k < i + 1 && cards@[k].0 == y;
                    if k < i {
                        assert(seq_has(before, y));
                    }
                }
            }
        }
        i = i + 1;
    }
    let mut j: usize = 0;
    while j < variables.len()
        invariant
            0 <= j <= variables@.len(),
            vars_in_range(variables@, store@.len()),
            increasing(values@),
            forall|y: int| seq_has(values@, y) <==> (card_keys(cards@).contains(y) || exists|k: int| 0 <= k < j && store@[variables@[k].index as int].contains(y)),
        decreases variables@.len() - j,
    {
        let dom = collect_values(store, variables[j]);
        let ghost d = store@[variables@[j as int].index as int];
        let ghost start = values@;
        let mut t: usize = 0;
        proof {
            assert forall|y: int| !seq_has(dom@.take(0), y) by {}
        }
        while t < dom.len()
            invariant
                0 <= t <= dom@.len(),
                increasing(values@),
                forall|y: int| #[trigger] seq_has(values@, y) <==> (seq_has(start, y) || seq_has(dom@.take(t as int), y)),
            decreases dom@.len() - t,
        {
            let ghost before = values@;
            insert_sorted(&mut values, dom[t]);
            proof {
                lemma_seq_has_take_step(dom@, t as int);
                assert forall|y: int| seq_has(values@, y) <==> (seq_has(start, y) || seq_has(dom@.take(t + 1), y)) by {
                    assert(seq_has(values@, y) <==> (seq_has(before, y) || y == dom@[t as int]));
                    assert(seq_has(before, y) <==> (seq_has(start, y) || seq_has(dom@.take(t as int), y)));
                    assert(seq_has(dom@.take(t + 1), y) <==> (seq_has(dom@.take(t as int), y) || y == dom@[t as int]));
                }
            }
            t = t + 1;
        }
        proof {
            assert(dom@.take(t as int) =~= dom@);
            assert forall|y: int| seq_has(values@, y) <==> (card_keys(cards@).contains(y) || exists|k: int| 0 <= k < j + 1 && store@[variables@[k].index as int].contains(y)) by {
                assert(seq_has(values@, y) <==> (seq_has(start, y) || seq_has(dom@, y)));
                assert(seq_has(start, y) <==> (card_keys(cards@).contains(y) || exists|k: int| 0 <= k < j && store@[variables@[k].index as int].contains(y)));
                assert(seq_has(dom@, y) <==> d.contains(y));
                if exists|k: int| 0 <= k < j + 1 && store@[variables@[k].index as int].contains(y) {
                    let k = choose|k: int| 0 <= k < j + 1 && store@[variables@[k].index as int].contains(y);
                    if k == j {
                        assert(d.contains(y));
                    } else {
                        assert(exists|k: int| 0 <= k < j && store@[variables@[k].index as int].contains(y));
                    }
                }
                if exists|k: int| 0 <= k < j && store@[variables@[k].index as int].contains(y) {
                    let k = choose|k: int| 0 <= k < j && store@[variables@[k].index as int].contains(y);
                    assert(0 <= k < j + 1 && store@[variables@[k].index as int].contains(y));
                }
                if d.contains(y) {
                    assert(store@[variables@[j as int].index as int].contains(y));
                }
            }
        }
        j = j + 1;
    }
    proof {
        let rel = relevant_values(store@, variables@, cards@);
        assert forall|y: int| seq_has(values@, y) <==> rel.contains(y) by {
            if domain_union(store@, variables@).contains(y) {
                let k = choose|k: int| 0 <= k < variables@.len() && store@[variables@[k].index as int].contains(y);
                assert(0 <= k < j);
            }
        }
        lemma_sorted_elems_of(values@, rel);
    }
    values
}

/// Counts the variables of `vars` fixed to `value` and lists those whose domain is open
/// for it.
fn classify(store: &DomainStore, vars: &Vec<VariableId>, value: i32) -> (r: (usize, Vec<VariableId>))
    requires
        vars_in_range(vars@, store@.len()),
    ensures
        r.0 == fixed_count(store@, vars@, value as int),
        r.1@.len() == open_count(store@, vars@, value as int),
        r.0 + r.1@.len() <= vars@.len(),
        vars_in_range(r.1@, store@.len()),
        forall|j: int| in_list(r.1@, j) <==> open_in(store@, vars@, j, value as int),
{
    let ghost s = store@;
    let ghost v = value as int;
    let mut fixed: usize = 0;
    let mut open: Vec<VariableId> = Vec::new();
    let mut i: usize = 0;
    while i < vars.len()
        invariant
            0 <= i <= vars@.len(),
            s == store@,
            v == value as int,
            vars_in_range(vars@, s.len()),
            fixed == fixed_count(s, vars@.take(i as int), v),
            open@.len() == open_count(s, vars@.take(i as int), v),
            fixed + open@.len() <= i,
            vars_in_range(open@, s.len()),
            forall|k: int| 0 <= k < open@.len() ==> is_open(s[(#[trigger] open@[k]).index as int], v),
            forall|j: int| in_list(open@, j) <==> (exists|p: int| 0 <= p < i && vars@[p].index == j && is_open(s[j], v)),
        decreases vars@.len() - i,
    {
        let var = vars[i];
        let ghost x = var.index as int;
        proof {
            assert(vars@.take(i + 1).drop_last() =~= vars@.take(i as int));
            assert(vars@.take(i + 1).last() == var);
        }
        let ghost before = open@;
        match store.fixed_value(var) {
            Some(fv) => {
                if fv == value {
                    fixed = fixed + 1;
                } else {
                    proof {
                        assert(set![v].contains(v));
                        assert(!set![fv as int].contains(v));
                        assert(s[x] != set![v]);
                    }
                }
                proof {
                    assert(!is_open(s[x], v)) by {
                        if fv != value {
                            assert(!set![fv as int].contains(v));
                        }
                    }
                }
            },
            None => {
                if store.contains(var, value) {
                    open.push(var);
                    proof {
                        assert(is_open(s[x], v));
                        assert(s[x] != set![v]);
                    }
                } else {
                    proof {
                        assert(s[x] != set![v]) by {
                            assert(set![v].contains(v));
                        }
                    }
                }
            },
        }
        proof {
            assert(fixed_count(s, vars@.take(i + 1), v) == fixed_count(s, vars@.take(i as int), v) + if s[x] == set![v] { 1nat } else { 0nat });
            assert(open_count(s, vars@.take(i + 1), v) == open_count(s, vars@.take(i as int), v) + if is_open(s[x], v) { 1nat } else { 0nat });
            assert(forall|k: int| 0 <= k < before.len() ==> open@[k] == before[k]);
            assert forall|j: int| in_list(open@, j) <==> (exists|p: int| 0 <= p < i + 1 && vars@[p].index == j && is_open(s[j], v)) by {
                if in_list(open@, j) {
                    let k = choose|k: int| 0 <= k < open@.len() && open@[k].index == j;
                    if k < before.len() {
                        assert(before[k] == open@[k]);
                        assert(in_list(before, j));
                    } else {
                        assert(vars@[i as int].index == j);
                    }
                }
                if exists|p: int| 0 <= p < i + 1 && vars@[p].index == j && is_open(s[j], v) {
                    let p = choose|p: int| 0 <= p < i + 1 && vars@[p].index == j && is_open(s[j], v);
                    if p < i {
                        assert(in_list(before, j));
                        let k = choose|k: int| 0 <= k < before.len() && before[k].index == j;
                        assert(open@[k] == before[k]);
                    } else {
                        assert(open@[open@.len() - 1] == var);
                    }
                }
            }
        }
        i = i + 1;
    }
    proof {
        assert(vars@.take(i as int) =~= vars@);
    }
    (fixed, open)
}

/// Removes `value` from the variables of `open` ([`gcc_value_step`]'s cut at the
/// maximum); returns whether a domain changed.
fn remove_from_open(store: &mut DomainStore, open: &Vec<VariableId>, value: i32) -> (changed: bool)
    requires
        vars_in_range(open@, old(store)@.len()),
    ensures
        final(store)@ == Seq::new(
            old(store)@.len(),
            |j: int| if in_list(open@, j) { old(store)@[j].remove(value as int) } else { old(store)@[j] },
        ),
        changed == (final(store)@ != old(store)@),
        narrows(old(store)@, final(store)@),
{
    let ghost s0 = store@;
    let ghost v = value as int;
    let mut changed = false;
    let mut i: usize = 0;
    proof {
        assert(store@ =~= Seq::new(s0.len(), |j: int| if in_list(open@.take(0), j) { s0[j].remove(v) } else { s0[j] }));
        assert(narrows(s0, s0));
    }
    while i < open.len()
        invariant
            0 <= i <= open@.len(),
            v == value as int,
            vars_in_range(open@, s0.len()),
            store@ == Seq::new(s0.len(), |j: int| if in_list(open@.take(i as int), j) { s0[j].remove(v) } else { s0[j] }),
            narrows(s0, store@),
            changed == (store@ != s0),
        decreases open@.len() - i,
    {
        let ghost cur = store@;
        let step = store.remove_value(open[i], value);
        proof {
            lemma_narrow_step(s0, cur, store@, changed, step);
            let t = open@[i as int].index as int;
            let pre = open@.take(i as int);
            let post = open@.take(i + 1);
            assert forall|j: int| 0 <= j < s0.len() implies store@[j] == (if in_list(post, j) { s0[j].remove(v) } else { s0[j] }) by {
                if j == t {
                    assert(post[i as int].index == j);
                    assert(cur[t].remove(v) =~= s0[t].remove(v));
                } else {
                    if in_list(post, j) {
                        let k = choose|k: int| 0 <= k < post.len() && post[k].index == j;
                        assert(pre[k] == post[k]);
                    }
                    if in_list(pre, j) {
                        let k = choose|k: int| 0 <= k < pre.len() && pre[k].index == j;
                        assert(pre[k] == post[k]);
                    }
                }
            }
            assert(store@ =~= Seq::new(s0.len(), |j: int| if in_list(post, j) { s0[j].remove(v) } else { s0[j] }));
        }
        changed = changed || step;
        i = i + 1;
    }
    proof {
        assert(open@.take(i as int) =~= open@);
    }
    changed
}

/// Keeps only `keep` in the domain of `var`; returns whether a value was removed.
pub fn remove_all_except(store: &mut DomainStore, var: VariableId, keep: i32) -> (changed: bool)
    requires
        var.index < old(store)@.len(),
    ensures
        final(store)@ == old(store)@.update(var.index as int, old(store)@[var.index as int].intersect(set![keep as int])),
        changed == (final(store)@ != old(store)@),
        narrows(old(store)@, final(store)@),
{
    let changed = store.restrict(var, keep, keep);
    proof {
        let d = old(store)@[var.index as int];
        assert(between(d, keep as int, keep as int) =~= d.intersect(set![keep as int]));
    }
    changed
}

/// Fixes the variables of `open` to `value` ([`gcc_value_step`]'s cut at the minimum);
/// returns whether a domain changed.
fn fix_open(store: &mut DomainStore, open: &Vec<VariableId>, value: i32) -> (changed: bool)
    requires
        vars_in_range(open@, old(store)@.len()),
    ensures
        final(store)@ == Seq::new(
            old(store)@.len(),
            |j: int| if in_list(open@, j) { old(store)@[j].intersect(set![value as int]) } else { old(store)@[j] },
        ),
        changed == (final(store)@ != old(store)@),
        narrows(old(store)@, final(store)@),
{
    let ghost s0 = store@;
    let ghost v = value as int;
    let mut changed = false;
    let mut i: usize = 0;
    proof {
        assert(store@ =~= Seq::new(s0.len(), |j: int| if in_list(open@.take(0), j) { s0[j].intersect(set![v]) } else { s0[j] }));
        assert(narrows(s0, s0));
    }
    while i < open.len()
        invariant
            0 <= i <= open@.len(),
            v == value as int,
            vars_in_range(open@, s0.len()),
            store@ == Seq::new(s0.len(), |j: int| if in_list(open@.take(i as int), j) { s0[j].intersect(set![v]) } else { s0[j] }),
            narrows(s0, store@),
            changed == (store@ != s0),
        decreases open@.len() - i,
    {
        let ghost cur = store@;
        let var = open[i];
        let mut step = false;
        if store.fixed_value(var) != Some(value) {
            step = remove_all_except(store, var, value);
        }
        proof {
            let t = var.index as int;
            if step {
                lemma_narrow_step(s0, cur, store@, changed, step);
            } else {
                assert(store@ == cur);
            }
            let pre = open@.take(i as int);
            let post = open@.take(i + 1);
            assert forall|j: int| 0 <= j < s0.len() implies store@[j] == (if in_list(post, j) { s0[j].intersect(set![v]) } else { s0[j] }) by {
                if j == t {
                    assert(post[i as int].index == j);
                    assert(cur[t].intersect(set![v]) =~= s0[t].intersect(set![v]));
                    if store@ == cur {
                        if cur[t] == set![v] {
                            assert(s0[t].intersect(set![v]) =~= set![v]) by {
                                if !in_list(pre, t) {
                                    assert(s0[t] == cur[t]);
                                }
                            }
                        } else {
                            assert(store@[t] == cur[t].intersect(set![v]));
                        }
                    }
                } else {
                    if in_list(post, j) {
                        let k = choose|k: int| 0 <= k < post.len() && post[k].index == j;
                        assert(pre[k] == post[k]);
                    }
                    if in_list(pre, j) {
                        let k = choose|k: int| 0 <= k < pre.len() && pre[k].index == j;
                        assert(pre[k] == post[k]);
                    }
                }
            }
            assert(store@ =~= Seq::new(s0.len(), |j: int| if in_list(post, j) { s0[j].intersect(set![v]) } else { s0[j] }));
        }
        changed = changed || step;
        i = i + 1;
    }
    proof {
        assert(open@.take(i as int) =~= open@);
    }
    changed
}

/// Applies [`gcc_value_step`] for `value` with bounds `lo..=hi`; returns whether it
/// passed and whether a domain changed.
fn value_step(store: &mut DomainStore, vars: &Vec<VariableId>, value: i32, lo: i32, hi: i32) -> (r: (bool, bool))
    requires
        vars_in_range(vars@, old(store)@.len()),
        vars@.len() <= i32::MAX,
    ensures
        (final(store)@, r.0) == gcc_value_step(old(store)@, vars@, value as int, lo as int, hi as int),
        r.1 == (final(store)@ != old(store)@),
        narrows(old(store)@, final(store)@),
{
    let ghost s0 = store@;
    let ghost v = value as int;
    let (fixed, open) = classify(store, vars, value);
    let fc = fixed as i64;
    let pc = fixed as i64 + open.len() as i64;
    if fc > hi as i64 || pc < lo as i64 {
        proof {
            assert(narrows(s0, s0));
        }
        return (false, false);
    }
    let mut changed = false;
    proof {
        assert(narrows(s0, s0));
    }
    if fc == hi as i64 {
        changed = remove_from_open(store, &open, value);
    }
    let ghost s1 = store@;
    proof {
        if fc == hi as i64 {
            assert(s1 =~= Seq::new(s0.len(), |j: int| if open_in(s0, vars@, j, v) { s0[j].remove(v) } else { s0[j] }));
        }
    }
    if pc == lo as i64 {
        let step = fix_open(store, &open, value);
        proof {
            lemma_narrow_step(s0, s1, store@, changed, step);
            assert(store@ =~= Seq::new(s0.len(), |j: int| if open_in(s0, vars@, j, v) { s1[j].intersect(set![v]) } else { s1[j] }));
        }
        changed = changed || step;
    }
    (true, changed)
}

/// The bounds of `value` in `cards` ([`card_bounds`]).
fn lookup_bounds(cards: &Vec<(i32, CardinalityBound)>, value: i32, n: i32) -> (r: (i32, i32))
    ensures
        (r.0 as int, r.1 as int) == card_bounds(cards@, value as int, n as int),
{
    let mut i: usize = cards.len();
    proof {
        assert(cards@.take(i as int) =~= cards@);
    }
    while i > 0
        invariant
            0 <= i <= cards@.len(),
            card_bounds(cards@, value as int, n as int) == card_bounds(cards@.take(i as int), value as int, n as int),
        decreases i,
    {
        proof {
            assert(cards@.take(i as int).last() == cards@[i - 1]);
            assert(cards@.take(i as int).drop_last() =~= cards@.take(i - 1));
        }
        if cards[i - 1].0 == value {
            return (cards[i - 1].1.min, cards[i - 1].1.max);
        }
        i = i - 1;
    }
    (0, n)
}

/// One round over the relevant values ([`gcc_round`]): `Err` when a value's bounds
/// cannot be met, else whether a domain changed.
pub fn propagate_bounds(store: &mut DomainStore, variables: &Vec<VariableId>, cards: &Vec<(i32, CardinalityBound)>) -> (r: Result<bool, ()>)
    requires
        vars_in_range(variables@, old(store)@.len()),
        variables@.len() <= i32::MAX,
    ensures
        final(store)@ == gcc_round(old(store)@, variables@, cards@).0,
        r is Ok <==> gcc_round(old(store)@, variables@, cards@).1,
        r matches Ok(b) ==> b == (final(store)@ != old(store)@),
        narrows(old(store)@, final(store)@),
{
    let ghost s0 = store@;
    let values = collect_relevant_values(store, variables, cards);
    let ghost vals = values@.map_values(|v: i32| v as int);
    let n = variables.len() as i32;
    let mut changed = false;
    let mut i: usize = 0;
    proof {
        assert(vals.take(0) =~= Seq::<int>::empty());
        assert(narrows(s0, s0));
    }
    while i < values.len()
        invariant
            0 <= i <= values@.len(),
            vals == values@.map_values(|v: i32| v as int),
            vals == sorted_elems(relevant_values(s0, variables@, cards@)),
            s0 == old(store)@,
            vars_in_range(variables@, s0.len()),
            variables@.len() <= i32::MAX,
            n == variables@.len(),
            (store@, true) == gcc_fold(s0, variables@, cards@, vals.take(i as int)),
            narrows(s0, store@),
            changed == (store@ != s0),
        decreases values@.len() - i,
    {
        let value = values[i];
        let bounds = lookup_bounds(cards, value, n);
        let ghost cur = store@;
        let (ok, step) = value_step(store, variables, value, bounds.0, bounds.1);
        proof {
            assert(vals.take(i + 1).drop_last() =~= vals.take(i as int));
            assert(vals.take(i + 1).last() == value as int);
        }
        if !ok {
            proof {
                assert(gcc_fold(s0, variables@, cards@, vals.take(i + 1)) == (store@, false));
                lemma_fold_stops(s0, variables@, cards@, vals, i + 1);
                assert(gcc_fold(s0, variables@, cards@, vals) == (store@, false));
                assert(gcc_round(s0, variables@, cards@) == gcc_fold(s0, variables@, cards@, vals));
                assert(vals.take(vals.len() as int) =~= vals);
            }
            return Err(());
        }
        proof {
            lemma_narrow_step(s0, cur, store@, changed, step);
        }
        changed = changed || step;
        i = i + 1;
    }
    proof {
        assert(vals.take(i as int) =~= vals);
    }
    Ok(changed)
}

/// Propagates global cardinality with bounds consistency.
pub struct GlobalCardinalityPropagator {
    /// The variables.
    pub variables: Vec<VariableId>,
    /// The per-value bounds; a later entry for a value overrides an earlier one.
    pub cards: Vec<(i32, CardinalityBound)>,
}

impl GlobalCardinalityPropagator {
    /// Creates a GCC propagator over `variables` and per-value bounds.
    pub fn new<const N: usize>(variables: Vec<VariableId>, cards: [(i32, CardinalityBound); N]) -> (p: Self)
        ensures
            p.variables@ == variables@,
            p.cards@ == cards@,
    {
        let mut list: Vec<(i32, CardinalityBound)> = Vec::new();
        let mut i: usize = 0;
        while i < N
            invariant
                0 <= i <= N,
                N == cards@.len(),
                list@ == cards@.take(i as int),
            decreases N - i,
        {
            list.push(cards[i]);
            proof {
                assert(cards@.take(i + 1) =~= cards@.take(i as int).push(cards@[i as int]));
            }
            i = i + 1;
        }
        proof {
            assert(cards@.take(N as int) =~= cards@);
        }
        GlobalCardinalityPropagator { variables, cards: list }
    }

    /// The variables whose domains this propagator reads.
    pub fn watched_variables(&self) -> (w: &Vec<VariableId>)
        ensures
            w@ == self.variables@,
    {
        &self.variables
    }

    /// Scheduling priority: propagators with a lower number run first.
    pub fn priority(&self) -> (p: u32)
        ensures
            p == 12,
    {
        12
    }

    /// Repeats rounds of [`gcc_round`] until one fails (`Failure`) or changes nothing;
    /// then fails when a variable has an empty domain.
    pub fn propagate(&mut self, store: &mut DomainStore) -> (status: PropagationStatus)
        requires
            vars_in_range(old(self).variables@, old(store)@.len()),
            old(self).variables@.len() <= i32::MAX,
        ensures
            *final(self) == *old(self),
            exists|k: nat| {
                let (t, ok) = #[trigger] gcc_rounds(old(store)@, old(self).variables@, old(self).cards@, k);
                &&& final(store)@ == t
                &&& !ok ==> status == PropagationStatus::Failure
                &&& ok ==> gcc_round(t, old(self).variables@, old(self).cards@) == (t, true) && status == (if some_var_empty(
                    t,
                    old(self).variables@,
                ) {
                    PropagationStatus::Failure
                } else if t != old(store)@ {
                    PropagationStatus::OkChanged
                } else {
                    PropagationStatus::OkNoChange
                })
            },
    {
        let ghost s0 = store@;
        let ghost vars = self.variables@;
        let ghost cards = self.cards@;
        let ghost mut k: nat = 0;
        let mut changed = false;
        proof {
            assert(narrows(s0, s0));
        }
        loop
            invariant
                *self == *old(self),
                s0 == old(store)@,
                vars == self.variables@,
                cards == self.cards@,
                vars_in_range(vars, s0.len()),
                vars.len() <= i32::MAX,
                store@.len() == s0.len(),
                gcc_rounds(s0, vars, cards, k) == (store@, true),
                narrows(s0, store@),
                changed == (store@ != s0),
            ensures
                gcc_rounds(s0, vars, cards, k) == (store@, true),
                gcc_round(store@, vars, cards) == (store@, true),
                changed == (store@ != s0),
            decreases total_size(store@),
        {
            store.assert_in_range();
            let ghost start = store@;
            let r = propagate_bounds(store, &self.variables, &self.cards);
            proof {
                k = k + 1;
            }
            match r {
                Err(()) => {
                    proof {
                        assert(gcc_rounds(s0, vars, cards, k) == (store@, false));
                        assert(gcc_rounds(old(store)@, old(self).variables@, old(self).cards@, k) == (store@, false));
                    }
                    return PropagationStatus::Failure;
                },
                Ok(round_changed) => {
                    proof {
                        lemma_narrows_trans(s0, start, store@);
                        lemma_narrow_step(s0, start, store@, changed, round_changed);
                    }
                    changed = changed || round_changed;
                    if !round_changed {
                        proof {
                            assert(store@ == start);
                        }
                        break;
                    }
                    proof {
                        lemma_total_size_narrows(start, store@);
                    }
                },
            }
        }
        if any_empty(store, &self.variables) {
            PropagationStatus::Failure
        } else if changed {
            PropagationStatus::OkChanged
        } else {
            PropagationStatus::OkNoChange
        }
    }
}

} // verus!
