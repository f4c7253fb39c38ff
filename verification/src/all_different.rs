//! All-different: pairwise distinct values, by removing fixed values from the other
//! variables and by matching-based filtering.
use vstd::prelude::*;

use crate::domain::{
    lemma_narrow_step, lemma_narrows_trans, lemma_total_size_narrows, narrows, total_size, DomainStore,
    PropagationStatus, VariableId,
};
use crate::gcc::in_list;
use crate::inverse::{any_empty, some_var_empty, vars_in_range};
use crate::matching::{
    distinct_choice, gac_filter, has_perfect_matching, law_gac_filter_keeps_choices, lemma_empty_no_choice,
    remove_unsupported_values,
};
use crate::solutions::{assignment_in, keeps};

verus! {

/// The values other variables of `vars` than `j` are fixed to.
pub open spec fn fixed_others(s: Seq<Set<int>>, vars: Seq<VariableId>, j: int) -> Set<int> {
    Set::new(|v: int| exists|p: int| 0 <= p < vars.len() && s[vars[p].index as int] == set![v] && vars[p].index != j)
}

/// Store after each variable of `vars` loses the values other variables are fixed to.
pub open spec fn fixed_removal(s: Seq<Set<int>>, vars: Seq<VariableId>) -> Seq<Set<int>> {
    Seq::new(s.len(), |j: int| if in_list(vars, j) { s[j].difference(fixed_others(s, vars, j)) } else { s[j] })
}

/// `d` holds exactly one value.
pub open spec fn is_singleton(d: Set<int>) -> bool {
    exists|v: int| d == set![v]
}

/// The values removed from `j` by the first `q` entries of `fixed`.
pub open spec fn removed_by(fixed: Seq<(VariableId, i32)>, q: int, j: int) -> Set<int> {
    Set::new(|v: int| exists|r: int| 0 <= r < q && fixed[r].1 == v && fixed[r].0.index != j)
}

/// With at most one variable, no other variable's value is removed from it.
proof fn lemma_single_no_fixed_removal(s: Seq<Set<int>>, vars: Seq<VariableId>)
    requires
        vars.len() <= 1,
    ensures
        fixed_removal(s, vars) == s,
{
    assert forall|j: int| 0 <= j < s.len() implies fixed_removal(s, vars)[j] == s[j] by {
        if in_list(vars, j) {
            assert(fixed_others(s, vars, j) =~= Set::<int>::empty()) by {
                assert forall|v: int| !fixed_others(s, vars, j).contains(v) by {
                    if fixed_others(s, vars, j).contains(v) {
                        let p = choose|p: int| 0 <= p < vars.len() && s[vars[p].index as int] == set![v] && vars[p].index != j;
                        let k = choose|k: int| 0 <= k < vars.len() && vars[k].index == j;
                        assert(p == k);
                    }
                }
            }
            assert(s[j].difference(fixed_others(s, vars, j)) =~= s[j]);
        }
    }
    assert(fixed_removal(s, vars) =~= s);
}

/// Removes the value of each fixed variable of `variables` from the others
/// ([`fixed_removal`], with the fixed variables read once at the start); returns whether
/// a domain changed.
pub fn remove_fixed_values(store: &mut DomainStore, variables: &Vec<VariableId>) -> (changed: bool)
    requires
        vars_in_range(variables@, old(store)@.len()),
    ensures
        final(store)@ == fixed_removal(old(store)@, variables@),
        changed == (final(store)@ != old(store)@),
        narrows(old(store)@, final(store)@),
{
    let ghost s0 = store@;
    let ghost vars = variables@;
    let mut fixed: Vec<(VariableId, i32)> = Vec::new();
    let mut i: usize = 0;
    while i < variables.len()
        invariant
            0 <= i <= vars.len(),
            vars == variables@,
            s0 == store@,
            vars_in_range(vars, s0.len()),
            forall|q: int| 0 <= q < fixed@.len() ==> in_list(vars, (#[trigger] fixed@[q]).0.index as int)
                && s0[fixed@[q].0.index as int] == set![fixed@[q].1 as int],
            forall|p: int| #![trigger vars[p]] 0 <= p < i && is_singleton(s0[vars[p].index as int]) ==> exists|q: int|
                0 <= q < fixed@.len() && fixed@[q].0 == vars[p],
        decreases vars.len() - i,
    {
        let var = variables[i];
        let ghost before = fixed@;
        if let Some(value) = store.fixed_value(var) {
            fixed.push((var, value));
            proof {
                assert(vars[i as int].index == var.index);
                assert(fixed@[fixed@.len() - 1] == (var, value));
                assert forall|p: int| #![trigger vars[p]] 0 <= p < i + 1 && is_singleton(s0[vars[p].index as int]) implies exists|q: int|
                    0 <= q < fixed@.len() && fixed@[q].0 == vars[p] by {
                    if p == i {
                        assert(fixed@[fixed@.len() - 1].0 == vars[p]);
                    } else {
                        let q = choose|q: int| 0 <= q < before.len() && before[q].0 == vars[p];
                        assert(fixed@[q] == before[q]);
                    }
                }
            }
        } else {
            proof {
                assert forall|p: int| #![trigger vars[p]] 0 <= p < i + 1 && is_singleton(s0[vars[p].index as int]) implies exists|q: int|
                    0 <= q < fixed@.len() && fixed@[q].0 == vars[p] by {
                    if p == i {
                        let v = choose|v: int| s0[vars[p].index as int] == set![v];
                        assert(s0[var.index as int] != set![v]);
                    }
                }
            }
        }
        i = i + 1;
    }
    let mut changed = false;
    let mut q: usize = 0;
    proof {
        assert(store@ =~= Seq::new(s0.len(), |j: int| if in_list(vars, j) { s0[j].difference(removed_by(fixed@, 0, j)) } else { s0[j] })) by {
            assert forall|j: int| 0 <= j < s0.len() implies s0[j] == s0[j].difference(removed_by(fixed@, 0, j)) by {
                assert(s0[j].difference(removed_by(fixed@, 0, j)) =~= s0[j]);
            }
        }
        assert(narrows(s0, s0));
    }
    while q < fixed.len()
        invariant
            0 <= q <= fixed@.len(),
            vars == variables@,
            vars_in_range(vars, s0.len()),
            s0 == old(store)@,
            store@ == Seq::new(s0.len(), |j: int| if in_list(vars, j) { s0[j].difference(removed_by(fixed@, q as int, j)) } else { s0[j] }),
            narrows(s0, store@),
            changed == (store@ != s0),
        decreases fixed@.len() - q,
    {
        let (source, value) = fixed[q];
        let ghost base = store@;
        let mut p: usize = 0;
        while p < variables.len()
            invariant
                0 <= p <= vars.len(),
                vars == variables@,
                vars_in_range(vars, s0.len()),
                store@.len() == s0.len(),
                base.len() == s0.len(),
                store@ == Seq::new(s0.len(), |j: int| if (exists|k: int| 0 <= k < p && vars[k].index == j) && j != source.index {
                    base[j].remove(value as int)
                } else {
                    base[j]
                }),
                narrows(s0, base),
                narrows(s0, store@),
                changed == (store@ != s0),
            decreases vars.len() - p,
        {
            let var = variables[p];
            let ghost cur = store@;
            if var.index != source.index {
                let c = store.remove_value(var, value);
                proof {
                    lemma_narrow_step(s0, cur, store@, changed, c);
                }
                changed = changed || c;
            }
            proof {
                assert forall|j: int| 0 <= j < s0.len() implies store@[j] == (if (exists|k: int| 0 <= k < p + 1 && vars[k].index == j)
                    && j != source.index {
                    base[j].remove(value as int)
                } else {
                    base[j]
                }) by {
                    if j == var.index && j != source.index {
                        assert(vars[p as int].index == j);
                        assert(cur[j].remove(value as int) =~= base[j].remove(value as int));
                    } else if (exists|k: int| 0 <= k < p + 1 && vars[k].index == j) && j != source.index {
                        let k = choose|k: int| 0 <= k < p + 1 && vars[k].index == j;
                        assert(k < p);
                    }
                }
                assert(store@ =~= Seq::new(s0.len(), |j: int| if (exists|k: int| 0 <= k < p + 1 && vars[k].index == j) && j != source.index {
                    base[j].remove(value as int)
                } else {
                    base[j]
                }));
            }
            p = p + 1;
        }
        proof {
            assert forall|j: int| 0 <= j < s0.len() implies store@[j] == (if in_list(vars, j) { s0[j].difference(removed_by(fixed@, q + 1, j)) } else {
                s0[j]
            }) by {
                if in_list(vars, j) {
                    let k = choose|k: int| 0 <= k < vars.len() && vars[k].index == j;
                    assert(exists|k: int| 0 <= k < p && vars[k].index == j);
                    assert(base[j] == s0[j].difference(removed_by(fixed@, q as int, j)));
                    assert forall|v: int| removed_by(fixed@, q + 1, j).contains(v) <==> (removed_by(fixed@, q as int, j).contains(v) || (v
                        == value && j != source.index)) by {
                        if removed_by(fixed@, q + 1, j).contains(v) {
                            let r = choose|r: int| 0 <= r < q + 1 && fixed@[r].1 == v && fixed@[r].0.index != j;
                            if r < q {
                                assert(removed_by(fixed@, q as int, j).contains(v));
                            }
                        }
                        if removed_by(fixed@, q as int, j).contains(v) {
                            let r = choose|r: int| 0 <= r < q && fixed@[r].1 == v && fixed@[r].0.index != j;
                            assert(0 <= r < q + 1);
                        }
                        if v == value && j != source.index {
                            assert(fixed@[q as int].1 == v && fixed@[q as int].0.index != j);
                        }
                    }
                    if j != source.index {
                        assert(store@[j] =~= s0[j].difference(removed_by(fixed@, q + 1, j)));
                    } else {
                        assert(store@[j] =~= s0[j].difference(removed_by(fixed@, q + 1, j)));
                    }
                } else {
                    if exists|k: int| 0 <= k < p && vars[k].index == j {
                        let k = choose|k: int| 0 <= k < p && vars[k].index == j;
                        assert(in_list(vars, j));
                    }
                }
            }
            assert(store@ =~= Seq::new(s0.len(), |j: int| if in_list(vars, j) { s0[j].difference(removed_by(fixed@, q + 1, j)) } else {
                s0[j]
            }));
        }
        q = q + 1;
    }
    proof {
        assert forall|j: int| 0 <= j < s0.len() implies store@[j] == fixed_removal(s0, vars)[j] by {
            if in_list(vars, j) {
                assert(removed_by(fixed@, fixed@.len() as int, j) =~= fixed_others(s0, vars, j)) by {
                    assert forall|v: int| removed_by(fixed@, fixed@.len() as int, j).contains(v) implies fixed_others(s0, vars, j).contains(v) by {
                        let r = choose|r: int| 0 <= r < fixed@.len() && fixed@[r].1 == v && fixed@[r].0.index != j;
                        let src = fixed@[r].0;
                        assert(in_list(vars, src.index as int));
                        let p = choose|p: int| 0 <= p < vars.len() && vars[p].index == src.index;
                        assert(s0[vars[p].index as int] == set![v]);
                    }
                    assert forall|v: int| fixed_others(s0, vars, j).contains(v) implies removed_by(fixed@, fixed@.len() as int, j).contains(v) by {
                        let p = choose|p: int| 0 <= p < vars.len() && s0[vars[p].index as int] == set![v] && vars[p].index != j;
                        assert(is_singleton(s0[vars[p].index as int]));
                        let r = choose|r: int| 0 <= r < fixed@.len() && fixed@[r].0 == vars[p];
                        assert(s0[vars[p].index as int] == set![fixed@[r].1 as int]);
                        assert(set![v].contains(v));
                        assert(fixed@[r].1 == v && fixed@[r].0.index != j);
                    }
                }
            }
        }
        assert(store@ =~= fixed_removal(s0, vars));
    }
    changed
}

/// `sigma` gives different variables of `vars` different values.
pub open spec fn all_different_holds(vars: Seq<VariableId>) -> spec_fn(Seq<int>) -> bool {
    |sigma: Seq<int>|
        forall|p: int, q: int|
            0 <= p < vars.len() && 0 <= q < vars.len() && vars[p].index != vars[q].index ==> #[trigger] sigma[vars[p].index as int]
                != #[trigger] sigma[vars[q].index as int]
}

/// Removing fixed values keeps every solution of all-different: a variable fixed to a
/// value forces every other variable of a solution to avoid it.
pub proof fn law_remove_fixed_values_keeps_solutions(s: Seq<Set<int>>, vars: Seq<VariableId>)
    requires
        vars_in_range(vars, s.len()),
    ensures
        keeps(s, fixed_removal(s, vars), all_different_holds(vars)),
{
    let c = all_different_holds(vars);
    let t = fixed_removal(s, vars);
    assert forall|sigma: Seq<int>| assignment_in(s, sigma) && #[trigger] c(sigma) implies assignment_in(t, sigma) by {
        assert forall|j: int| 0 <= j < t.len() implies #[trigger] t[j].contains(sigma[j]) by {
            assert(s[j].contains(sigma[j]));
            if in_list(vars, j) && fixed_others(s, vars, j).contains(sigma[j]) {
                let v = sigma[j];
                let p = choose|p: int| 0 <= p < vars.len() && s[vars[p].index as int] == set![v] && vars[p].index != j;
                let k = choose|k: int| 0 <= k < vars.len() && vars[k].index == j;
                assert(s[vars[p].index as int].contains(sigma[vars[p].index as int]));
                assert(sigma[vars[p].index as int] != sigma[vars[k].index as int]);
            }
        }
    }
}

/// Removing the values fixed elsewhere removes no choice of pairwise distinct values.
pub proof fn law_fixed_removal_keeps_choices(s: Seq<Set<int>>, vars: Seq<VariableId>, vals: Seq<int>)
    requires
        vars_in_range(vars, s.len()),
        distinct_choice(s, vars, vals),
    ensures
        distinct_choice(fixed_removal(s, vars), vars, vals),
{
    assert forall|l: int| 0 <= l < vars.len() implies fixed_removal(s, vars)[vars[l].index as int].contains(#[trigger] vals[l]) by {
        let j = vars[l].index as int;
        assert(in_list(vars, j));
        assert(s[j].contains(vals[l]));
        if fixed_others(s, vars, j).contains(vals[l]) {
            let p = choose|p: int| 0 <= p < vars.len() && s[vars[p].index as int] == set![vals[l]] && vars[p].index != j;
            assert(s[vars[p].index as int].contains(vals[p]));
            assert(vals[p] != vals[l]);
        }
    }
}

/// Matching-based filtering ([`remove_unsupported_values`]) after a check that a
/// matching of all variables exists; nothing with at most one variable.
pub fn propagate_matching(store: &mut DomainStore, variables: &Vec<VariableId>) -> (r: Result<bool, ()>)
    requires
        vars_in_range(variables@, old(store)@.len()),
        variables@.len() < usize::MAX,
    ensures
        variables@.len() <= 1 ==> r == Ok::<bool, ()>(false) && final(store)@ == old(store)@,
        variables@.len() > 1 ==> (r is Err <==> !exists|vals: Seq<int>| distinct_choice(old(store)@, variables@, vals)),
        r is Err ==> final(store)@ == old(store)@,
        variables@.len() > 1 && r is Ok ==> final(store)@ == gac_filter(old(store)@, variables@),
        r matches Ok(b) ==> b == (final(store)@ != old(store)@),
        narrows(old(store)@, final(store)@),
{
    if variables.len() <= 1 {
        proof {
            assert(narrows(store@, store@));
        }
        return Ok(false);
    }
    if !has_perfect_matching(store, variables) {
        proof {
            assert(narrows(store@, store@));
        }
        return Err(());
    }
    remove_unsupported_values(store, variables)
}

/// Propagates pairwise distinctness to generalized arc consistency when possible.
pub struct AllDifferentPropagator {
    /// The variables.
    pub variables: Vec<VariableId>,
}

impl AllDifferentPropagator {
    /// Creates an all-different propagator over `variables`.
    pub fn new(variables: Vec<VariableId>) -> (p: Self)
        ensures
            p.variables@ == variables@,
    {
        AllDifferentPropagator { variables }
    }

    /// The variables whose domains this propagator reads.
    pub fn watched_variables(&self) -> (w: &Vec<VariableId>)
        ensures
            w@ == self.variables@,
    {
        &self.variables
    }

    /// Scheduling priority: propagators with a lower number run first.
    pub fn priority(&self) -> (p: u32)
        ensures
            p == 10,
    {
        10
    }

    /// Repeats rounds of [`remove_fixed_values`] and [`propagate_matching`] until a
    /// round changes nothing, failing when matching fails or, at the end, when a
    /// variable's domain is empty. It fails only when the variables cannot take
    /// pairwise distinct values, and keeps every choice of such values. A result other
    /// than `Failure` leaves a store where no domain is empty, no fixed value is left in
    /// another domain, and (with two variables or more) every value is taken by some
    /// choice of pairwise distinct values.
    pub fn propagate(&mut self, store: &mut DomainStore) -> (status: PropagationStatus)
        requires
            vars_in_range(old(self).variables@, old(store)@.len()),
            old(self).variables@.len() < usize::MAX,
        ensures
            *final(self) == *old(self),
            narrows(old(store)@, final(store)@),
            status != PropagationStatus::Failure ==> {
                &&& !some_var_empty(final(store)@, old(self).variables@)
                &&& fixed_removal(final(store)@, old(self).variables@) == final(store)@
                &&& old(self).variables@.len() > 1 ==> exists|vals: Seq<int>| distinct_choice(final(store)@, old(self).variables@, vals)
                &&& old(self).variables@.len() > 1 ==> gac_filter(final(store)@, old(self).variables@) == final(store)@
                &&& status == if final(store)@ != old(store)@ {
                    PropagationStatus::OkChanged
                } else {
                    PropagationStatus::OkNoChange
                }
            },
            status == PropagationStatus::Failure ==> !exists|vals: Seq<int>| distinct_choice(old(store)@, old(self).variables@, vals),
            forall|vals: Seq<int>|
                #[trigger] distinct_choice(old(store)@, old(self).variables@, vals) ==> distinct_choice(
                    final(store)@,
                    old(self).variables@,
                    vals,
                ),
            old(self).variables@.len() <= 1 ==> final(store)@ == old(store)@ && status == if some_var_empty(
                old(store)@,
                old(self).variables@,
            ) {
                PropagationStatus::Failure
            } else {
                PropagationStatus::OkNoChange
            },
    {
        let ghost s0 = store@;
        let ghost vars = self.variables@;
        let mut changed = false;
        proof {
            assert(narrows(s0, s0));
        }
        loop
            invariant
                *self == *old(self),
                s0 == old(store)@,
                vars == self.variables@,
                vars_in_range(vars, s0.len()),
                vars.len() < usize::MAX,
                store@.len() == s0.len(),
                narrows(s0, store@),
                changed == (store@ != s0),
                vars.len() <= 1 ==> store@ == s0,
                forall|vals: Seq<int>| #[trigger] distinct_choice(s0, vars, vals) ==> distinct_choice(store@, vars, vals),
            ensures
                narrows(s0, store@),
                changed == (store@ != s0),
                fixed_removal(store@, vars) == store@,
                vars.len() > 1 ==> exists|vals: Seq<int>| distinct_choice(store@, vars, vals),
                vars.len() > 1 ==> gac_filter(store@, vars) == store@,
                vars.len() <= 1 ==> store@ == s0,
                forall|vals: Seq<int>| #[trigger] distinct_choice(s0, vars, vals) ==> distinct_choice(store@, vars, vals),
            decreases total_size(store@),
        {
            store.assert_in_range();
            let ghost start = store@;
            proof {
                if vars.len() <= 1 {
                    lemma_single_no_fixed_removal(start, vars);
                }
            }
            let c1 = remove_fixed_values(store, &self.variables);
            let ghost mid = store@;
            proof {
                assert forall|vals: Seq<int>| #[trigger] distinct_choice(s0, vars, vals) implies distinct_choice(mid, vars, vals) by {
                    assert(distinct_choice(start, vars, vals));
                    law_fixed_removal_keeps_choices(start, vars, vals);
                }
            }
            let c2 = match propagate_matching(store, &self.variables) {
                Ok(c) => c,
                Err(()) => {
                    proof {
                        lemma_narrows_trans(s0, start, mid);
                        lemma_narrows_trans(s0, mid, store@);
                        if exists|vals: Seq<int>| distinct_choice(s0, vars, vals) {
                            let vals = choose|vals: Seq<int>| distinct_choice(s0, vars, vals);
                            assert(distinct_choice(mid, vars, vals));
                        }
                    }
                    return PropagationStatus::Failure;
                },
            };
            proof {
                assert forall|vals: Seq<int>| #[trigger] distinct_choice(s0, vars, vals) implies distinct_choice(store@, vars, vals) by {
                    assert(distinct_choice(mid, vars, vals));
                    if vars.len() > 1 {
                        law_gac_filter_keeps_choices(mid, vars, vals);
                    }
                }
            }
            proof {
                lemma_narrow_step(start, mid, store@, c1, c2);
                lemma_narrows_trans(s0, start, store@);
                lemma_narrow_step(s0, start, store@, changed, c1 || c2);
            }
            changed = changed || c1 || c2;
            if !(c1 || c2) {
                proof {
                    assert(store@ == start);
                    assert(mid == start);
                }
                break;
            }
            proof {
                lemma_total_size_narrows(start, store@);
            }
        }
        if any_empty(store, &self.variables) {
            proof {
                let i = choose|i: int| 0 <= i < vars.len() && store@[(#[trigger] vars[i]).index as int].is_empty();
                lemma_empty_no_choice(store@, vars, i);
            }
            PropagationStatus::Failure
        } else if changed {
            PropagationStatus::OkChanged
        } else {
            PropagationStatus::OkNoChange
        }
    }
}

} // verus!
