//! Propagation of `inverse(forward, backward)`: `forward[i] = j <=> backward[j] = i`.
use vstd::prelude::*;

use crate::domain::{
    between, least, lemma_narrow_step, lemma_narrows_trans, lemma_total_size_narrows, narrows, seq_has, total_size,
    DomainStore, PropagationStatus, VariableId,
};
use crate::int_mod::is_fixed;
use crate::solutions::assignment_in;

verus! {

/// The values `v` of a variable at position `i` of one array that the other array
/// `other` supports: `other[v]` exists and may take `i`.
pub open spec fn supported(s: Seq<Set<int>>, other: Seq<VariableId>, i: int) -> spec_fn(int) -> bool {
    |v: int| 0 <= v < other.len() && s[other[v].index as int].contains(i)
}

/// Store after the variable `var` at position `i` is checked against `other`: a fixed
/// value `t` pins `other[t]` to `i`; otherwise the unsupported values leave `var`.
pub open spec fn inverse_var_step(s: Seq<Set<int>>, var: VariableId, i: int, other: Seq<VariableId>) -> Seq<Set<int>> {
    let d = s[var.index as int];
    if is_fixed(d) {
        let t = least(d);
        if 0 <= t < other.len() {
            let k = other[t].index as int;
            s.update(k, between(s[k], i, i))
        } else {
            s
        }
    } else {
        s.update(var.index as int, d.filter(supported(s, other, i)))
    }
}

/// Store after the first `k` variables of `vars` are checked against `other`, in order.
pub open spec fn inverse_pass(s: Seq<Set<int>>, vars: Seq<VariableId>, other: Seq<VariableId>, k: nat) -> Seq<Set<int>>
    decreases k,
{
    if k == 0 || k > vars.len() {
        s
    } else {
        inverse_var_step(inverse_pass(s, vars, other, (k - 1) as nat), vars[k - 1], k - 1, other)
    }
}

/// Store after one round: `forward` against `backward`, then `backward` against
/// `forward`.
pub open spec fn inverse_round(s: Seq<Set<int>>, fwd: Seq<VariableId>, bwd: Seq<VariableId>) -> Seq<Set<int>> {
    inverse_pass(inverse_pass(s, fwd, bwd, fwd.len()), bwd, fwd, bwd.len())
}

/// Store after `n` rounds.
pub open spec fn inverse_rounds(s: Seq<Set<int>>, fwd: Seq<VariableId>, bwd: Seq<VariableId>, n: nat) -> Seq<Set<int>>
    decreases n,
{
    if n == 0 {
        s
    } else {
        inverse_round(inverse_rounds(s, fwd, bwd, (n - 1) as nat), fwd, bwd)
    }
}

/// Every variable of `vars` names a domain of a store of `n` domains.
pub open spec fn vars_in_range(vars: Seq<VariableId>, n: nat) -> bool {
    forall|i: int| 0 <= i < vars.len() ==> (#[trigger] vars[i]).index < n
}

/// Some variable of `vars` has an empty domain.
pub open spec fn some_var_empty(s: Seq<Set<int>>, vars: Seq<VariableId>) -> bool {
    exists|i: int| 0 <= i < vars.len() && s[(#[trigger] vars[i]).index as int].is_empty()
}

/// `sigma` is an inverse pair: each position `i` of `fwd` points into `bwd` at a
/// position that points back to `i`, and the same from `bwd`.
pub open spec fn inverse_holds(fwd: Seq<VariableId>, bwd: Seq<VariableId>) -> spec_fn(Seq<int>) -> bool {
    |sigma: Seq<int>| points_back(sigma, fwd, bwd) && points_back(sigma, bwd, fwd)
}

/// Each position `i` of `vars` takes a position of `other` that takes `i`.
pub open spec fn points_back(sigma: Seq<int>, vars: Seq<VariableId>, other: Seq<VariableId>) -> bool {
    forall|i: int|
        0 <= i < vars.len() ==> {
            let v = #[trigger] sigma[vars[i].index as int];
            0 <= v < other.len() && sigma[other[v].index as int] == i
        }
}

/// Checking one variable keeps an assignment that points back through it.
proof fn lemma_var_step_keeps(s: Seq<Set<int>>, var: VariableId, i: int, other: Seq<VariableId>, sigma: Seq<int>)
    requires
        assignment_in(s, sigma),
        var.index < s.len(),
        vars_in_range(other, s.len()),
        0 <= sigma[var.index as int] < other.len(),
        sigma[other[sigma[var.index as int]].index as int] == i,
    ensures
        assignment_in(inverse_var_step(s, var, i, other), sigma),
{
    let d = s[var.index as int];
    let x = var.index as int;
    assert(d.contains(sigma[x]));
    if is_fixed(d) {
        let t = least(d);
        assert(d == set![t]) by {
            let w = choose|w: int| d == set![w];
            assert(set![w].contains(sigma[x]));
            crate::domain::lemma_least_is(d, w);
        }
        assert(sigma[x] == t);
        let k = other[t].index as int;
        assert(s[k].contains(sigma[k]));
    } else {
        assert(supported(s, other, i)(sigma[x])) by {
            let k = other[sigma[x]].index as int;
            assert(s[k].contains(sigma[k]));
        }
    }
    let t = inverse_var_step(s, var, i, other);
    assert forall|j: int| 0 <= j < t.len() implies #[trigger] t[j].contains(sigma[j]) by {
        assert(s[j].contains(sigma[j]));
    }
}

/// A pass keeps every assignment that points back from `vars` into `other`.
proof fn lemma_pass_keeps(s: Seq<Set<int>>, vars: Seq<VariableId>, other: Seq<VariableId>, k: nat, sigma: Seq<int>)
    requires
        assignment_in(s, sigma),
        vars_in_range(vars, s.len()),
        vars_in_range(other, s.len()),
        points_back(sigma, vars, other),
    ensures
        assignment_in(inverse_pass(s, vars, other, k), sigma),
    decreases k,
{
    if k != 0 && k <= vars.len() {
        lemma_pass_keeps(s, vars, other, (k - 1) as nat, sigma);
        let t = inverse_pass(s, vars, other, (k - 1) as nat);
        assert(sigma[vars[k - 1].index as int] == sigma[vars[k - 1].index as int]);
        lemma_var_step_keeps(t, vars[k - 1], k - 1, other, sigma);
    }
}

/// A pass keeps the number of domains.
proof fn lemma_pass_len(s: Seq<Set<int>>, vars: Seq<VariableId>, other: Seq<VariableId>, k: nat)
    requires
        vars_in_range(vars, s.len()),
        vars_in_range(other, s.len()),
    ensures
        inverse_pass(s, vars, other, k).len() == s.len(),
    decreases k,
{
    if k != 0 && k <= vars.len() {
        lemma_pass_len(s, vars, other, (k - 1) as nat);
        let t = inverse_pass(s, vars, other, (k - 1) as nat);
        let d = t[vars[k - 1].index as int];
        if is_fixed(d) && 0 <= least(d) < other.len() {
            assert(other[least(d)].index < s.len());
        }
    }
}

/// Rounds keep the number of domains.
proof fn lemma_rounds_len(s: Seq<Set<int>>, fwd: Seq<VariableId>, bwd: Seq<VariableId>, n: nat)
    requires
        vars_in_range(fwd, s.len()),
        vars_in_range(bwd, s.len()),
    ensures
        inverse_rounds(s, fwd, bwd, n).len() == s.len(),
    decreases n,
{
    if n > 0 {
        lemma_rounds_len(s, fwd, bwd, (n - 1) as nat);
        let t = inverse_rounds(s, fwd, bwd, (n - 1) as nat);
        lemma_pass_len(t, fwd, bwd, fwd.len());
        lemma_pass_len(inverse_pass(t, fwd, bwd, fwd.len()), bwd, fwd, bwd.len());
    }
}

/// Propagation keeps every inverse pair: after any number of rounds the assignment is
/// still in the store, so no variable of either array has an empty domain.
pub proof fn law_inverse_keeps_solutions(s: Seq<Set<int>>, fwd: Seq<VariableId>, bwd: Seq<VariableId>, sigma: Seq<int>, n: nat)
    requires
        vars_in_range(fwd, s.len()),
        vars_in_range(bwd, s.len()),
        assignment_in(s, sigma),
        (inverse_holds(fwd, bwd))(sigma),
    ensures
        assignment_in(inverse_rounds(s, fwd, bwd, n), sigma),
        !some_var_empty(inverse_rounds(s, fwd, bwd, n), fwd),
        !some_var_empty(inverse_rounds(s, fwd, bwd, n), bwd),
    decreases n,
{
    if n > 0 {
        law_inverse_keeps_solutions(s, fwd, bwd, sigma, (n - 1) as nat);
        let t = inverse_rounds(s, fwd, bwd, (n - 1) as nat);
        lemma_pass_keeps(t, fwd, bwd, fwd.len(), sigma);
        let t1 = inverse_pass(t, fwd, bwd, fwd.len());
        lemma_rounds_len(s, fwd, bwd, (n - 1) as nat);
        lemma_pass_len(t, fwd, bwd, fwd.len());
        lemma_pass_keeps(t1, bwd, fwd, bwd.len(), sigma);
    }
    let u = inverse_rounds(s, fwd, bwd, n);
    assert forall|i: int| 0 <= i < fwd.len() implies !u[(#[trigger] fwd[i]).index as int].is_empty() by {
        assert(u[fwd[i].index as int].contains(sigma[fwd[i].index as int]));
    }
    assert forall|i: int| 0 <= i < bwd.len() implies !u[(#[trigger] bwd[i]).index as int].is_empty() by {
        assert(u[bwd[i].index as int].contains(sigma[bwd[i].index as int]));
    }
}

/// In `s`, each variable of `vars` agrees with `other`: a variable at position `i` that
/// is not fixed only holds values `v` for which `other[v]` exists and may still take
/// `i`; a variable fixed to a position `t` of `other` leaves `other[t]` nothing but `i`.
pub open spec fn inverse_supported(s: Seq<Set<int>>, vars: Seq<VariableId>, other: Seq<VariableId>) -> bool {
    &&& forall|i: int, v: int|
        0 <= i < vars.len() && !is_fixed(s[vars[i].index as int]) && #[trigger] s[vars[i].index as int].contains(v)
            ==> 0 <= v < other.len() && s[other[v].index as int].contains(i)
    &&& forall|i: int|
        0 <= i < vars.len() && is_fixed(s[(#[trigger] vars[i]).index as int]) && 0 <= least(s[vars[i].index as int])
            < other.len() ==> s[other[least(s[vars[i].index as int])].index as int].subset_of(set![i])
}

/// Checking one variable only removes values.
proof fn lemma_step_narrows(s: Seq<Set<int>>, var: VariableId, i: int, other: Seq<VariableId>)
    requires
        var.index < s.len(),
        vars_in_range(other, s.len()),
    ensures
        narrows(s, inverse_var_step(s, var, i, other)),
{
    let d = s[var.index as int];
    if is_fixed(d) && 0 <= least(d) < other.len() {
        assert(other[least(d)].index < s.len());
    }
}

/// A later point of a pass narrows an earlier one.
proof fn lemma_pass_narrows(s: Seq<Set<int>>, vars: Seq<VariableId>, other: Seq<VariableId>, j: nat, k: nat)
    requires
        j <= k <= vars.len(),
        vars_in_range(vars, s.len()),
        vars_in_range(other, s.len()),
    ensures
        narrows(inverse_pass(s, vars, other, j), inverse_pass(s, vars, other, k)),
    decreases k,
{
    if j == k {
        assert(narrows(inverse_pass(s, vars, other, j), inverse_pass(s, vars, other, j)));
    } else {
        lemma_pass_narrows(s, vars, other, j, (k - 1) as nat);
        let t = inverse_pass(s, vars, other, (k - 1) as nat);
        lemma_pass_len(s, vars, other, (k - 1) as nat);
        lemma_step_narrows(t, vars[k - 1], k - 1, other);
        lemma_narrows_trans(inverse_pass(s, vars, other, j), t, inverse_pass(s, vars, other, k));
    }
}

/// A pass that leaves `s` alone leaves every variable of `vars` in agreement with
/// `other`.
proof fn lemma_pass_fixed_supported(s: Seq<Set<int>>, vars: Seq<VariableId>, other: Seq<VariableId>)
    requires
        vars_in_range(vars, s.len()),
        vars_in_range(other, s.len()),
        inverse_pass(s, vars, other, vars.len()) == s,
    ensures
        inverse_supported(s, vars, other),
{
    let n = vars.len();
    assert forall|i: int| 0 <= i < n implies inverse_var_step(s, #[trigger] vars[i], i, other) == s by {
        lemma_pass_narrows(s, vars, other, 0, i as nat);
        lemma_pass_narrows(s, vars, other, i as nat, (i + 1) as nat);
        lemma_pass_narrows(s, vars, other, (i + 1) as nat, n);
        let a = inverse_pass(s, vars, other, i as nat);
        let b = inverse_pass(s, vars, other, (i + 1) as nat);
        assert(inverse_pass(s, vars, other, 0) == s);
        assert forall|k: int| 0 <= k < s.len() implies a[k] == s[k] && b[k] == s[k] by {
            assert(a[k] =~= s[k]);
            assert(b[k] =~= s[k]);
        }
        assert(a =~= s);
        assert(b =~= s);
    }
    assert forall|i: int, v: int|
        0 <= i < n && !is_fixed(s[vars[i].index as int]) && #[trigger] s[vars[i].index as int].contains(v) implies 0 <= v
        < other.len() && s[other[v].index as int].contains(i) by {
        let t = inverse_var_step(s, vars[i], i, other);
        assert(t == s);
        assert(t[vars[i].index as int].contains(v));
    }
    assert forall|i: int|
        0 <= i < n && is_fixed(s[(#[trigger] vars[i]).index as int]) && 0 <= least(s[vars[i].index as int]) < other.len()
            implies s[other[least(s[vars[i].index as int])].index as int].subset_of(set![i]) by {
        let t = inverse_var_step(s, vars[i], i, other);
        assert(t == s);
        let k = other[least(s[vars[i].index as int])].index as int;
        assert(t[k] == between(s[k], i, i));
    }
}

/// At a fixpoint of a round, both arrays agree with each other: every value left to a
/// variable that is not fixed points at a variable of the other array that may still
/// point back, and a fixed variable leaves its target nothing but its own position.
pub proof fn law_inverse_fixpoint_supported(s: Seq<Set<int>>, fwd: Seq<VariableId>, bwd: Seq<VariableId>)
    requires
        vars_in_range(fwd, s.len()),
        vars_in_range(bwd, s.len()),
        inverse_round(s, fwd, bwd) == s,
    ensures
        inverse_supported(s, fwd, bwd),
        inverse_supported(s, bwd, fwd),
{
    let p = inverse_pass(s, fwd, bwd, fwd.len());
    lemma_pass_narrows(s, fwd, bwd, 0, fwd.len());
    lemma_pass_len(s, fwd, bwd, fwd.len());
    lemma_pass_narrows(p, bwd, fwd, 0, bwd.len());
    assert(inverse_pass(s, fwd, bwd, 0) == s);
    assert(inverse_pass(p, bwd, fwd, 0) == p);
    assert forall|k: int| 0 <= k < s.len() implies p[k] == s[k] by {
        assert(p[k] =~= s[k]);
    }
    assert(p =~= s);
    lemma_pass_fixed_supported(s, fwd, bwd);
    lemma_pass_fixed_supported(s, bwd, fwd);
}

/// Checks the variable `var` at position `index` against `other` (see
/// [`inverse_var_step`]); returns whether a domain changed.
fn check_var(store: &mut DomainStore, var: VariableId, index: usize, other: &Vec<VariableId>) -> (changed: bool)
    requires
        var.index < old(store)@.len(),
        vars_in_range(other@, old(store)@.len()),
        index <= i32::MAX,
    ensures
        final(store)@ == inverse_var_step(old(store)@, var, index as int, other@),
        narrows(old(store)@, final(store)@),
        changed == (final(store)@ != old(store)@),
{
    let ghost s = store@;
    let ghost x = var.index as int;
    let ghost sup = supported(s, other@, index as int);
    let index_value = index as i32;
    proof {
        assert(narrows(s, s));
    }
    match store.fixed_value(var) {
        Some(target) => {
            proof {
                assert(s[x].contains(target as int));
                assert(crate::domain::is_least(s[x], target as int));
                crate::domain::lemma_least_is(s[x], target as int);
                assert(is_fixed(s[x]));
            }
            if target >= 0 && (target as usize) < other.len() {
                let k = other[target as usize];
                return store.restrict(k, index_value, index_value);
            }
            false
        },
        None => {
            proof {
                assert(!is_fixed(s[x]));
            }
            let values = store.values(var);
            let mut unsupported: Vec<i32> = Vec::new();
            let mut k: usize = 0;
            while k < values.len()
                invariant
                    0 <= k <= values@.len(),
                    store@ == s,
                    vars_in_range(other@, s.len()),
                    sup == supported(s, other@, index as int),
                    index_value == index,
                    forall|y: int| seq_has(unsupported@, y) <==> (seq_has(values@.take(k as int), y) && !sup(y)),
                decreases values@.len() - k,
            {
                let v = values[k];
                let ok = v >= 0 && (v as usize) < other.len() && store.contains(other[v as usize], index_value);
                let ghost before = unsupported@;
                if !ok {
                    unsupported.push(v);
                }
                proof {
                    let ta = values@.take(k + 1);
                    let tb = values@.take(k as int);
                    assert(ok == sup(v as int));
                    assert forall|y: int| seq_has(unsupported@, y) <==> (seq_has(ta, y) && !sup(y)) by {
                        if seq_has(unsupported@, y) {
                            let q = choose|q: int| 0 <= q < unsupported@.len() && unsupported@[q] == y;
                            if q < before.len() {
                                assert(before[q] == y);
                                assert(seq_has(before, y));
                                let r = choose|r: int| 0 <= r < tb.len() && tb[r] == y;
                                assert(ta[r] == y);
                            } else {
                                assert(ta[k as int] == y);
                            }
                        }
                        if seq_has(ta, y) && !sup(y) {
                            let r = choose|r: int| 0 <= r < ta.len() && ta[r] == y;
                            if r < k {
                                assert(tb[r] == y);
                                assert(seq_has(before, y));
                                let q = choose|q: int| 0 <= q < before.len() && before[q] == y;
                                assert(unsupported@[q] == y);
                            } else {
                                assert(unsupported@[before.len() as int] == y);
                            }
                        }
                    }
                }
                k = k + 1;
            }
            proof {
                assert(values@.take(k as int) =~= values@);
            }
            let mut changed = false;
            let mut j: usize = 0;
            proof {
                assert(s[x].filter(|y: int| !seq_has(unsupported@.take(0), y)) =~= s[x]);
                assert(s.update(x, s[x]) =~= s);
            }
            while j < unsupported.len()
                invariant
                    0 <= j <= unsupported@.len(),
                    x == var.index,
                    x < s.len(),
                    sup == supported(s, other@, index as int),
                    forall|y: int| seq_has(unsupported@, y) <==> (seq_has(values@, y) && !sup(y)),
                    store@ == s.update(x, s[x].filter(|y: int| !seq_has(unsupported@.take(j as int), y))),
                    narrows(s, store@),
                    changed == (store@ != s),
                decreases unsupported@.len() - j,
            {
                let ghost t = store@;
                let v = unsupported[j];
                let step = store.remove_value(var, v);
                proof {
                    let ta = unsupported@.take(j + 1);
                    let tb = unsupported@.take(j as int);
                    assert forall|y: int| seq_has(ta, y) <==> (seq_has(tb, y) || y == v) by {
                        if seq_has(ta, y) {
                            let q = choose|q: int| 0 <= q < ta.len() && ta[q] == y;
                            if q < j {
                                assert(tb[q] == y);
                            }
                        }
                        if seq_has(tb, y) {
                            let q = choose|q: int| 0 <= q < tb.len() && tb[q] == y;
                            assert(ta[q] == y);
                        }
                        if y == v {
                            assert(ta[j as int] == y);
                        }
                    }
                    assert(t[x].remove(v as int) =~= s[x].filter(|y: int| !seq_has(unsupported@.take(j + 1), y)));
                    assert(store@ =~= s.update(x, s[x].filter(|y: int| !seq_has(unsupported@.take(j + 1), y))));
                    lemma_narrow_step(s, t, store@, changed, step);
                }
                changed = changed || step;
                j = j + 1;
            }
            proof {
                assert(unsupported@.take(j as int) =~= unsupported@);
                assert forall|y: int| s[x].contains(y) implies (!seq_has(unsupported@, y) <==> sup(y)) by {
                    assert(seq_has(values@, y));
                }
                assert(s[x].filter(|y: int| !seq_has(unsupported@, y)) =~= s[x].filter(sup));
            }
            changed
        },
    }
}

/// Checks every variable of `vars` against `other`, in order (see [`inverse_pass`]);
/// returns whether a domain changed.
fn propagate_forward_to_backward(store: &mut DomainStore, vars: &Vec<VariableId>, other: &Vec<VariableId>) -> (changed: bool)
    requires
        vars_in_range(vars@, old(store)@.len()),
        vars_in_range(other@, old(store)@.len()),
        vars@.len() <= i32::MAX as int + 1,
    ensures
        final(store)@ == inverse_pass(old(store)@, vars@, other@, vars@.len()),
        narrows(old(store)@, final(store)@),
        changed == (final(store)@ != old(store)@),
{
    let ghost s0 = store@;
    let mut changed = false;
    let mut i: usize = 0;
    proof {
        assert(narrows(s0, s0));
    }
    while i < vars.len()
        invariant
            0 <= i <= vars@.len(),
            vars@.len() <= i32::MAX as int + 1,
            store@.len() == s0.len(),
            vars_in_range(vars@, s0.len()),
            vars_in_range(other@, s0.len()),
            store@ == inverse_pass(s0, vars@, other@, i as nat),
            narrows(s0, store@),
            changed == (store@ != s0),
        decreases vars@.len() - i,
    {
        let ghost t = store@;
        let step = check_var(store, vars[i], i, other);
        proof {
            lemma_narrow_step(s0, t, store@, changed, step);
        }
        changed = changed || step;
        i = i + 1;
    }
    changed
}

/// Whether some variable of `vars` has an empty domain.
pub(crate) fn any_empty(store: &DomainStore, vars: &Vec<VariableId>) -> (r: bool)
    requires
        vars_in_range(vars@, store@.len()),
    ensures
        r == some_var_empty(store@, vars@),
{
    let mut i: usize = 0;
    while i < vars.len()
        invariant
            0 <= i <= vars@.len(),
            vars_in_range(vars@, store@.len()),
            forall|k: int| 0 <= k < i ==> !store@[(#[trigger] vars@[k]).index as int].is_empty(),
        decreases vars@.len() - i,
    {
        if store.is_empty(vars[i]) {
            proof {
                assert(store@[vars@[i as int].index as int].is_empty());
            }
            return true;
        }
        i = i + 1;
    }
    false
}

/// Propagates `forward[i] = j <=> backward[j] = i`.
pub struct InversePropagator {
    /// The forward array.
    pub forward: Vec<VariableId>,
    /// The backward array.
    pub backward: Vec<VariableId>,
    /// `forward` followed by `backward`.
    pub watched: Vec<VariableId>,
}

impl InversePropagator {
    /// Creates an inverse constraint over `forward` and `backward`.
    pub fn new(forward: Vec<VariableId>, backward: Vec<VariableId>) -> (p: Self)
        ensures
            p.forward@ == forward@,
            p.backward@ == backward@,
            p.watched@ == forward@ + backward@,
    {
        let mut watched: Vec<VariableId> = Vec::new();
        let mut i: usize = 0;
        while i < forward.len()
            invariant
                0 <= i <= forward@.len(),
                watched@ == forward@.take(i as int),
            decreases forward@.len() - i,
        {
            watched.push(forward[i]);
            proof {
                assert(forward@.take(i + 1) =~= forward@.take(i as int).push(forward@[i as int]));
            }
            i = i + 1;
        }
        let mut j: usize = 0;
        while j < backward.len()
            invariant
                0 <= j <= backward@.len(),
                watched@ == forward@ + backward@.take(j as int),
            decreases backward@.len() - j,
        {
            watched.push(backward[j]);
            proof {
                assert(backward@.take(j + 1) =~= backward@.take(j as int).push(backward@[j as int]));
                assert(forward@ + backward@.take(j + 1) =~= (forward@ + backward@.take(j as int)).push(backward@[j as int]));
            }
            j = j + 1;
        }
        proof {
            assert(forward@.take(i as int) =~= forward@);
            assert(backward@.take(j as int) =~= backward@);
        }
        InversePropagator { forward, backward, watched }
    }

    /// The variables whose domains this propagator reads.
    pub fn watched_variables(&self) -> (w: &Vec<VariableId>)
        ensures
            w@ == self.watched@,
    {
        &self.watched
    }

    /// Scheduling priority: propagators with a lower number run first.
    pub fn priority(&self) -> (p: u32)
        ensures
            p == 20,
    {
        20
    }

    /// Repeats rounds of [`inverse_round`] until one changes nothing, then fails when a
    /// domain of either array is empty.
    pub fn propagate(&mut self, store: &mut DomainStore) -> (status: PropagationStatus)
        requires
            vars_in_range(old(self).forward@, old(store)@.len()),
            vars_in_range(old(self).backward@, old(store)@.len()),
            old(self).forward@.len() <= i32::MAX as int + 1,
            old(self).backward@.len() <= i32::MAX as int + 1,
        ensures
            *final(self) == *old(self),
            exists|n: nat| final(store)@ == inverse_rounds(old(store)@, old(self).forward@, old(self).backward@, n),
            inverse_round(final(store)@, old(self).forward@, old(self).backward@) == final(store)@,
            inverse_supported(final(store)@, old(self).forward@, old(self).backward@),
            inverse_supported(final(store)@, old(self).backward@, old(self).forward@),
            status == (if some_var_empty(final(store)@, old(self).forward@) || some_var_empty(
                final(store)@,
                old(self).backward@,
            ) {
                PropagationStatus::Failure
            } else if final(store)@ != old(store)@ {
                PropagationStatus::OkChanged
            } else {
                PropagationStatus::OkNoChange
            }),
    {
        let ghost s0 = store@;
        let ghost fwd = self.forward@;
        let ghost bwd = self.backward@;
        let ghost mut n: nat = 0;
        let mut changed = false;
        proof {
            assert(narrows(s0, s0));
        }
        loop
            invariant
                fwd == self.forward@,
                bwd == self.backward@,
                vars_in_range(fwd, s0.len()),
                vars_in_range(bwd, s0.len()),
                fwd.len() <= i32::MAX as int + 1,
                bwd.len() <= i32::MAX as int + 1,
                store@.len() == s0.len(),
                store@ == inverse_rounds(s0, fwd, bwd, n),
                narrows(s0, store@),
                changed == (store@ != s0),
            ensures
                store@ == inverse_rounds(s0, fwd, bwd, n),
                inverse_round(store@, fwd, bwd) == store@,
                changed == (store@ != s0),
            decreases total_size(store@),
        {
            store.assert_in_range();
            let ghost start = store@;
            let c1 = propagate_forward_to_backward(store, &self.forward, &self.backward);
            let ghost mid = store@;
            let c2 = propagate_forward_to_backward(store, &self.backward, &self.forward);
            proof {
                lemma_narrow_step(start, mid, store@, c1, c2);
                lemma_narrows_trans(s0, start, store@);
                lemma_narrow_step(s0, start, store@, changed, c1 || c2);
                n = n + 1;
            }
            changed = changed || c1 || c2;
            if !(c1 || c2) {
                proof {
                    assert(store@ == start);
                }
                break;
            }
            proof {
                lemma_total_size_narrows(start, store@);
            }
        }
        proof {
            law_inverse_fixpoint_supported(store@, fwd, bwd);
        }
        if any_empty(store, &self.forward) || any_empty(store, &self.backward) {
            PropagationStatus::Failure
        } else if changed {
            PropagationStatus::OkChanged
        } else {
            PropagationStatus::OkNoChange
        }
    }
}

} // verus!
