//! Dominance cuts: forbid assignments weakly dominated by an incumbent objective vector.
use vstd::prelude::*;

use crate::domain::{at_least, at_most, greatest, is_greatest, is_least, least, DomainStore, PropagationStatus, VariableId};
use crate::solutions::{assignment_in, has_solution, keeps};

verus! {

/// Direction for a single objective in an integer dominance cut.
#[derive(Clone, Copy, Debug, PartialEq, Eq, Structural)]
pub enum DominanceCutDirection {
    /// Cut the weakly-dominated orthant of a minimization objective.
    Minimize,
    /// Cut the weakly-dominated orthant of a maximization objective.
    Maximize,
}

/// One objective of a cut: its variable, its direction and the incumbent value.
pub type Cut = (VariableId, DominanceCutDirection, i32);

/// The objective can still do better than the incumbent in `s`.
pub open spec fn can_improve_in(s: Seq<Set<int>>, cut: Cut) -> bool {
    let d = s[cut.0.index as int];
    &&& !d.is_empty()
    &&& match cut.1 {
        DominanceCutDirection::Minimize => least(d) < cut.2,
        DominanceCutDirection::Maximize => greatest(d) > cut.2,
    }
}

/// Selects the objectives that can still improve in `s`.
pub open spec fn improvable_pred(s: Seq<Set<int>>) -> spec_fn(Cut) -> bool {
    |cut: Cut| can_improve_in(s, cut)
}

/// The objectives of `cuts` that can still improve in `s`.
pub open spec fn improvable(s: Seq<Set<int>>, cuts: Seq<Cut>) -> Seq<Cut> {
    cuts.filter(improvable_pred(s))
}

/// The assignment improves on objective `cut`.
pub open spec fn improves(sigma: Seq<int>, cut: Cut) -> bool {
    match cut.1 {
        DominanceCutDirection::Minimize => sigma[cut.0.index as int] < cut.2,
        DominanceCutDirection::Maximize => sigma[cut.0.index as int] > cut.2,
    }
}

/// The cut constraint: the assignment improves on some objective.
pub open spec fn cut_holds(cuts: Seq<Cut>) -> spec_fn(Seq<int>) -> bool {
    |sigma: Seq<int>| exists|i: int| 0 <= i < cuts.len() && improves(sigma, #[trigger] cuts[i])
}

/// The domain of the objective cut to values that improve on the incumbent.
pub open spec fn forced_improvement(d: Set<int>, cut: Cut) -> Set<int> {
    match cut.1 {
        DominanceCutDirection::Minimize => at_most(d, cut.2 - 1),
        DominanceCutDirection::Maximize => at_least(d, cut.2 + 1),
    }
}

/// The objective variables of `cuts`, in order.
pub open spec fn cut_vars(cuts: Seq<Cut>) -> Seq<VariableId> {
    cuts.map_values(|cut: Cut| cut.0)
}

/// Every objective of `cuts` is a variable of a store of `n` variables.
pub open spec fn cuts_in(cuts: Seq<Cut>, n: int) -> bool {
    forall|i: int| 0 <= i < cuts.len() ==> (#[trigger] cuts[i]).0.index < n
}

/// Prunes assignments weakly dominated by a previously found objective vector.
///
/// For minimize thresholds `v`, any assignment with all `obj_i >= v_i` is forbidden.
/// Propagation forces improvement on the last open objective when the others cannot improve.
pub struct IntDominanceCutPropagator {
    /// Each objective variable once, in order of first appearance.
    pub watched: Vec<VariableId>,
    /// The objectives with their directions and incumbent values.
    pub cuts: Vec<Cut>,
}

/// Whether the objective can still do better than the incumbent.
fn can_improve(store: &DomainStore, cut: Cut) -> (r: bool)
    requires
        cut.0.index < store@.len(),
    ensures
        r == can_improve_in(store@, cut),
{
    let (var, direction, value) = cut;
    match direction {
        DominanceCutDirection::Minimize => match store.min(var) {
            Some(m) => {
                proof {
                    crate::domain::lemma_least_is(store@[var.index as int], m as int);
                }
                m < value
            },
            None => false,
        },
        DominanceCutDirection::Maximize => match store.max(var) {
            Some(m) => {
                proof {
                    crate::domain::lemma_greatest_is(store@[var.index as int], m as int);
                }
                m > value
            },
            None => false,
        },
    }
}

impl IntDominanceCutPropagator {
    /// Creates a dominance cut over integer objectives and their incumbent values.
    pub fn new(cuts: Vec<Cut>) -> (p: Self)
        ensures
            p.cuts@ == cuts@,
            forall|i: int| 0 <= i < cuts@.len() ==> p.watched@.contains(#[trigger] cuts@[i].0),
            forall|j: int| 0 <= j < p.watched@.len() ==> cut_vars(cuts@).contains(#[trigger] p.watched@[j]),
            p.watched@.no_duplicates(),
    {
        let mut watched: Vec<VariableId> = Vec::new();
        let mut i: usize = 0;
        while i < cuts.len()
            invariant
                0 <= i <= cuts@.len(),
                forall|k: int| 0 <= k < i ==> watched@.contains(#[trigger] cuts@[k].0),
                forall|j: int| 0 <= j < watched@.len() ==> cut_vars(cuts@.take(i as int)).contains(#[trigger] watched@[j]),
                watched@.no_duplicates(),
            decreases cuts@.len() - i,
        {
            let var = cuts[i].0;
            let mut found = false;
            let mut j: usize = 0;
            while j < watched.len()
                invariant
                    0 <= j <= watched@.len(),
                    found == exists|q: int| 0 <= q < j && watched@[q].index == var.index,
                decreases watched@.len() - j,
            {
                if watched[j].index == var.index {
                    found = true;
                }
                j = j + 1;
            }
            let ghost before = watched@;
            proof {
                assert(cuts@.take(i + 1) =~= cuts@.take(i as int).push(cuts@[i as int]));
                assert(cut_vars(cuts@.take(i + 1)) =~= cut_vars(cuts@.take(i as int)).push(var));
                assert forall|j2: int| 0 <= j2 < before.len() implies cut_vars(cuts@.take(i + 1)).contains(#[trigger] before[j2]) by {
                    let k = choose|k: int| 0 <= k < cut_vars(cuts@.take(i as int)).len() && cut_vars(cuts@.take(i as int))[k] == before[j2];
                    assert(cut_vars(cuts@.take(i + 1))[k] == before[j2]);
                }
            }
            if !found {
                watched.push(var);
                proof {
                    assert(watched@[watched@.len() - 1] == var);
                    assert(cut_vars(cuts@.take(i + 1))[i as int] == var);
                    assert forall|k: int| 0 <= k < i + 1 implies watched@.contains(#[trigger] cuts@[k].0) by {
                        if k < i {
                            let q = choose|q: int| 0 <= q < before.len() && before[q] == cuts@[k].0;
                            assert(watched@[q] == cuts@[k].0);
                        }
                    }
                    assert forall|a: int, b: int| 0 <= a < b < watched@.len() implies watched@[a] != watched@[b] by {
                        if b == watched@.len() - 1 {
                            if watched@[a] == var {
                                assert(before[a].index == var.index);
                            }
                        }
                    }
                }
            } else {
                proof {
                    let q = choose|q: int| 0 <= q < j && watched@[q].index == var.index;
                    assert(watched@[q] == cuts@[i as int].0);
                }
            }
            i = i + 1;
        }
        proof {
            assert(cuts@.take(i as int) =~= cuts@);
        }
        IntDominanceCutPropagator { watched, cuts }
    }

    /// The objective variables.
    pub fn watched_variables(&self) -> (w: &Vec<VariableId>)
        ensures
            w@ == self.watched@,
    {
        &self.watched
    }

    /// Scheduling priority of this propagator.
    pub fn priority(&self) -> (p: u32)
        ensures
            p == 5,
    {
        5
    }

    /// Fails when no objective can improve on the incumbent; when exactly one can, cuts
    /// it to improving values; otherwise leaves the store as it is.
    pub fn propagate(&mut self, store: &mut DomainStore) -> (status: PropagationStatus)
        requires
            cuts_in(old(self).cuts@, old(store)@.len() as int),
        ensures
            *final(self) == *old(self),
            ({
                let imp = improvable(old(store)@, old(self).cuts@);
                if imp.len() == 0 {
                    &&& final(store)@ == old(store)@
                    &&& status == PropagationStatus::Failure
                } else if imp.len() == 1 {
                    let cut = imp[0];
                    let x = cut.0.index as int;
                    &&& final(store)@ == old(store)@.update(x, forced_improvement(old(store)@[x], cut))
                    &&& status == PropagationStatus::OkChanged
                } else {
                    &&& final(store)@ == old(store)@
                    &&& status == PropagationStatus::OkNoChange
                }
            }),
    {
        let ghost s0 = store@;
        let ghost cs = self.cuts@;
        store.assert_in_range();
        let mut found: Vec<Cut> = Vec::new();
        let mut i: usize = 0;
        while i < self.cuts.len()
            invariant
                0 <= i <= cs.len(),
                cs == self.cuts@,
                store@ == s0,
                cuts_in(cs, s0.len() as int),
                found@ == improvable(s0, cs.take(i as int)),
            decreases cs.len() - i,
        {
            let cut = self.cuts[i];
            let ok = can_improve(store, cut);
            proof {
                reveal_with_fuel(Seq::filter, 1);
                assert(cs.take(i + 1).drop_last() =~= cs.take(i as int));
            }
            if ok {
                found.push(cut);
            }
            i = i + 1;
        }
        proof {
            assert(cs.take(i as int) =~= cs);
            assert(found@ == improvable(s0, cs));
        }
        if found.len() == 0 {
            return PropagationStatus::Failure;
        }
        if found.len() == 1 {
            let (var, direction, value) = found[0];
            proof {
                assert(found@.len() == 1);
                assert(cs.filter(improvable_pred(s0)).len() == 1);
                cs.lemma_filter_pred(improvable_pred(s0), 0);
                assert(can_improve_in(s0, found@[0]));
                assert(cs.filter(improvable_pred(s0)).contains(found@[0]));
                cs.lemma_filter_contains_rev(improvable_pred(s0), found@[0]);
                let k = choose|k: int| 0 <= k < cs.len() && cs[k] == found@[0];
                assert(cs[k].0.index < s0.len());
                let x = var.index as int;
                if direction == DominanceCutDirection::Minimize {
                    crate::domain::lemma_least_exists(s0[x]);
                } else {
                    crate::domain::lemma_greatest_exists(s0[x]);
                }
            }
            // The objective can improve, so its cut keeps at least one value.
            match direction {
                DominanceCutDirection::Minimize => {
                    store.remove_above(var, value - 1);
                },
                DominanceCutDirection::Maximize => {
                    store.remove_below(var, value + 1);
                },
            }
            return PropagationStatus::OkChanged;
        }
        PropagationStatus::OkNoChange
    }
}

/// A solution of the cut improves on an objective that can improve.
proof fn lemma_solution_improvable(s0: Seq<Set<int>>, cuts: Seq<Cut>, sigma: Seq<int>) -> (i: int)
    requires
        cuts_in(cuts, s0.len() as int),
        forall|k: int| 0 <= k < s0.len() ==> (#[trigger] s0[k]).finite(),
        assignment_in(s0, sigma),
        cut_holds(cuts)(sigma),
    ensures
        0 <= i < cuts.len(),
        improves(sigma, cuts[i]),
        improvable(s0, cuts).contains(cuts[i]),
{
    let i = choose|i: int| 0 <= i < cuts.len() && improves(sigma, #[trigger] cuts[i]);
    let x = cuts[i].0.index as int;
    assert(s0[x].contains(sigma[x]));
    crate::domain::lemma_least_exists(s0[x]);
    crate::domain::lemma_greatest_exists(s0[x]);
    assert(can_improve_in(s0, cuts[i]));
    cuts.lemma_filter_contains(improvable_pred(s0), i);
    i
}

/// Without an objective that can improve the cut has no solution; with exactly one,
/// forcing it to improve keeps every solution.
pub proof fn law_dominance_cut_sound(s0: Seq<Set<int>>, cuts: Seq<Cut>)
    requires
        cuts_in(cuts, s0.len() as int),
        forall|k: int| 0 <= k < s0.len() ==> (#[trigger] s0[k]).finite(),
    ensures
        improvable(s0, cuts).len() == 0 ==> !has_solution(s0, cut_holds(cuts)),
        improvable(s0, cuts).len() == 1 ==> keeps(
            s0,
            s0.update(
                improvable(s0, cuts)[0].0.index as int,
                forced_improvement(s0[improvable(s0, cuts)[0].0.index as int], improvable(s0, cuts)[0]),
            ),
            cut_holds(cuts),
        ),
{
    let imp = improvable(s0, cuts);
    let c = cut_holds(cuts);
    if imp.len() == 0 && has_solution(s0, c) {
        let sigma = choose|sigma: Seq<int>| assignment_in(s0, sigma) && #[trigger] c(sigma);
        let i = lemma_solution_improvable(s0, cuts, sigma);
    }
    if imp.len() == 1 {
        let cut = imp[0];
        cuts.lemma_filter_contains_rev(improvable_pred(s0), cut);
        assert(imp.contains(cut));
        let x = cut.0.index as int;
        assert(x < s0.len()) by {
            let k = choose|k: int| 0 <= k < cuts.len() && cuts[k] == cut;
            assert(cuts[k].0.index < s0.len());
        }
        let t = s0.update(x, forced_improvement(s0[x], cut));
        assert forall|sigma: Seq<int>| assignment_in(s0, sigma) && #[trigger] c(sigma) implies assignment_in(t, sigma) by {
            let i = lemma_solution_improvable(s0, cuts, sigma);
            assert(cuts[i] == cut);
            assert forall|k: int| 0 <= k < s0.len() implies #[trigger] t[k].contains(sigma[k]) by {
                assert(s0[k].contains(sigma[k]));
            }
        }
    }
}

} // verus!
