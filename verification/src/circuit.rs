//! Hamiltonian circuit over successor variables.
use vstd::prelude::*;

use crate::domain::{lemma_narrow_step, narrows, DomainStore, PropagationStatus, VariableId};
use crate::gcc::in_list;
use crate::inverse::vars_in_range;
use crate::matching::{distinct_choice, gac_filter, remove_unsupported_values};
use crate::solutions::{assignment_in, keeps};

verus! {

/// The node numbers of the positions of `successors` that are the variable `j`.
pub open spec fn own_nodes(successors: Seq<VariableId>, base: int, j: int) -> Set<int> {
    Set::new(|v: int| exists|p: int| 0 <= p < successors.len() && successors[p].index == j && v == p + base)
}

/// Store after each successor variable loses its own node number (no self loops).
pub open spec fn without_self_loops(s: Seq<Set<int>>, successors: Seq<VariableId>, base: int) -> Seq<Set<int>> {
    Seq::new(s.len(), |j: int| if in_list(successors, j) { s[j].difference(own_nodes(successors, base, j)) } else { s[j] })
}

/// Node numbers from `base` fit in an `i32` for every position of `successors`.
pub open spec fn nodes_fit(successors: Seq<VariableId>, base: int) -> bool {
    successors.len() == 0 || base + successors.len() - 1 <= i32::MAX
}

/// `sigma` sends no node to itself.
pub open spec fn no_self_loop(successors: Seq<VariableId>, base: int) -> spec_fn(Seq<int>) -> bool {
    |sigma: Seq<int>| forall|p: int| 0 <= p < successors.len() ==> #[trigger] sigma[successors[p].index as int] != p + base
}

/// Removing self loops keeps every assignment in which no node is its own successor,
/// as in every Hamiltonian circuit of two nodes or more.
pub proof fn law_self_loops_keep_solutions(s: Seq<Set<int>>, successors: Seq<VariableId>, base: int)
    requires
        vars_in_range(successors, s.len()),
    ensures
        keeps(s, without_self_loops(s, successors, base), no_self_loop(successors, base)),
{
    let c = no_self_loop(successors, base);
    let t = without_self_loops(s, successors, base);
    assert forall|sigma: Seq<int>| assignment_in(s, sigma) && #[trigger] c(sigma) implies assignment_in(t, sigma) by {
        assert forall|j: int| 0 <= j < t.len() implies #[trigger] t[j].contains(sigma[j]) by {
            assert(s[j].contains(sigma[j]));
            if in_list(successors, j) && own_nodes(successors, base, j).contains(sigma[j]) {
                let p = choose|p: int| 0 <= p < successors.len() && successors[p].index == j && sigma[j] == p + base;
                assert(sigma[successors[p].index as int] != p + base);
            }
        }
    }
}

/// Removes each successor variable's own node number ([`without_self_loops`]); returns
/// whether a domain changed.
fn remove_self_loops(store: &mut DomainStore, successors: &Vec<VariableId>, index_base: i32) -> (changed: bool)
    requires
        vars_in_range(successors@, old(store)@.len()),
        successors@.len() < usize::MAX,
        nodes_fit(successors@, index_base as int),
    ensures
        final(store)@ == without_self_loops(old(store)@, successors@, index_base as int),
        changed == (final(store)@ != old(store)@),
        narrows(old(store)@, final(store)@),
{
    let ghost s0 = store@;
    let ghost succ = successors@;
    let ghost base = index_base as int;
    let mut changed = false;
    let mut index: usize = 0;
    proof {
        assert(store@ =~= Seq::new(s0.len(), |j: int| if in_list(succ, j) { s0[j].difference(own_nodes(succ.take(0), base, j)) } else { s0[j] }))
            by {
            assert forall|j: int| 0 <= j < s0.len() implies s0[j] == s0[j].difference(own_nodes(succ.take(0), base, j)) by {
                assert(s0[j].difference(own_nodes(succ.take(0), base, j)) =~= s0[j]);
            }
        }
        assert(narrows(s0, s0));
    }
    while index < successors.len()
        invariant
            0 <= index <= succ.len(),
            succ == successors@,
            base == index_base as int,
            vars_in_range(succ, s0.len()),
            succ.len() < usize::MAX,
            nodes_fit(succ, base),
            store@ == Seq::new(s0.len(), |j: int| if in_list(succ, j) { s0[j].difference(own_nodes(succ.take(index as int), base, j)) } else { s0[j] }),
            narrows(s0, store@),
            changed == (store@ != s0),
        decreases succ.len() - index,
    {
        let successor = successors[index];
        proof {
            assert(index as int + index_base <= i32::MAX);
        }
        let node = (index as i64 + index_base as i64) as i32;
        proof {
            assert(node as int == index as int + base);
        }
        let ghost cur = store@;
        let ghost x = successor.index as int;
        if store.contains(successor, node) {
            let c = store.remove_value(successor, node);
            proof {
                lemma_narrow_step(s0, cur, store@, changed, c);
            }
            changed = changed || c;
        }
        proof {
            let pre = succ.take(index as int);
            let post = succ.take(index + 1);
            assert forall|j: int| 0 <= j < s0.len() implies store@[j] == (if in_list(succ, j) { s0[j].difference(own_nodes(post, base, j)) } else {
                s0[j]
            }) by {
                assert forall|v: int| own_nodes(post, base, j).contains(v) <==> (own_nodes(pre, base, j).contains(v) || (j == x && v == node as int)) by {
                    if own_nodes(post, base, j).contains(v) {
                        let p = choose|p: int| 0 <= p < post.len() && post[p].index == j && v == p + base;
                        if p < index {
                            assert(pre[p] == post[p]);
                        }
                    }
                    if own_nodes(pre, base, j).contains(v) {
                        let p = choose|p: int| 0 <= p < pre.len() && pre[p].index == j && v == p + base;
                        assert(pre[p] == post[p]);
                    }
                    if j == x && v == node as int {
                        assert(post[index as int] == successor);
                    }
                }
                if j == x {
                    assert(succ[index as int] == successor);
                    assert(in_list(succ, j));
                    assert(store@[j] =~= s0[j].difference(own_nodes(post, base, j)));
                } else {
                    assert(own_nodes(post, base, j) =~= own_nodes(pre, base, j));
                }
            }
            assert(store@ =~= Seq::new(s0.len(), |j: int| if in_list(succ, j) { s0[j].difference(own_nodes(post, base, j)) } else { s0[j] }));
        }
        index = index + 1;
    }
    proof {
        assert(succ.take(index as int) =~= succ);
    }
    changed
}

/// Propagates a Hamiltonian circuit over successor variables.
pub struct CircuitPropagator {
    /// The successor of each node.
    pub successors: Vec<VariableId>,
    /// Index base for node numbering (0 for 0-based, 1 for 1-based FlatZinc).
    pub index_base: i32,
}

impl CircuitPropagator {
    /// Creates a circuit propagator over `successors[i] = j` edges.
    pub fn new(successors: Vec<VariableId>) -> (p: Self)
        ensures
            p.successors@ == successors@,
            p.index_base == 0,
    {
        Self::with_index_base(successors, 0)
    }

    /// Creates a circuit propagator with explicit index base.
    pub fn with_index_base(successors: Vec<VariableId>, index_base: i32) -> (p: Self)
        ensures
            p.successors@ == successors@,
            p.index_base == index_base,
    {
        CircuitPropagator { successors, index_base }
    }

    /// The variables whose domains this propagator reads.
    pub fn watched_variables(&self) -> (w: &Vec<VariableId>)
        ensures
            w@ == self.successors@,
    {
        &self.successors
    }

    /// Scheduling priority: propagators with a lower number run first.
    pub fn priority(&self) -> (p: u32)
        ensures
            p == 22,
    {
        22
    }

    /// Removes self loops ([`without_self_loops`]), then keeps the successor values that
    /// some choice of pairwise distinct successors takes ([`remove_unsupported_values`]);
    /// fails exactly when no such choice is left.
    pub fn propagate(&mut self, store: &mut DomainStore) -> (status: PropagationStatus)
        requires
            vars_in_range(old(self).successors@, old(store)@.len()),
            old(self).successors@.len() < usize::MAX,
            nodes_fit(old(self).successors@, old(self).index_base as int),
        ensures
            *final(self) == *old(self),
            narrows(old(store)@, final(store)@),
            ({
                let succ = old(self).successors@;
                let t = without_self_loops(old(store)@, succ, old(self).index_base as int);
                &&& succ.len() <= 1 ==> final(store)@ == t && status == if t != old(store)@ {
                    PropagationStatus::OkChanged
                } else {
                    PropagationStatus::OkNoChange
                }
                &&& succ.len() > 1 ==> (status == PropagationStatus::Failure <==> !exists|vals: Seq<int>| distinct_choice(t, succ, vals))
                &&& succ.len() > 1 && status == PropagationStatus::Failure ==> final(store)@ == t
                &&& succ.len() > 1 && status != PropagationStatus::Failure ==> {
                    &&& final(store)@ == gac_filter(t, succ)
                    &&& status == if final(store)@ != old(store)@ {
                        PropagationStatus::OkChanged
                    } else {
                        PropagationStatus::OkNoChange
                    }
                }
            }),
    {
        let ghost s0 = store@;
        let changed = remove_self_loops(store, &self.successors, self.index_base);
        let ghost t = store@;
        match remove_unsupported_values(store, &self.successors) {
            Ok(matching_changed) => {
                proof {
                    lemma_narrow_step(s0, t, store@, changed, matching_changed);
                }
                if changed || matching_changed {
                    PropagationStatus::OkChanged
                } else {
                    PropagationStatus::OkNoChange
                }
            },
            Err(()) => PropagationStatus::Failure,
        }
    }
}

} // verus!
