//! Propagation of the cardinality bounds stored in a set variable's domain.
use vstd::prelude::*;

use crate::domain::{PropagationStatus, VariableId};
use crate::set_domain::{
    force_all_in, force_out_missing, lemma_to_set_push, set_domain_empty, set_member, values_of, SetDomain, SetDomainView,
    SetStore,
};

verus! {

/// The domain after its cardinality bounds have been pushed into its value bounds: a
/// `glb` of the greatest cardinality closes `lub` down to it; an `lub` of the least
/// cardinality opens `glb` up to it.
pub open spec fn card_closed(d: SetDomainView) -> SetDomainView {
    if d.glb.len() == d.card_max {
        SetDomainView { lub: d.lub.difference(d.lub.difference(d.glb)), ..d }
    } else if d.lub.len() == d.card_min {
        SetDomainView { glb: d.glb.union(d.lub.difference(d.glb)), ..d }
    } else {
        d
    }
}

/// A finite set that holds all of a finite `small` and is no larger equals it.
proof fn lemma_subset_same_size(small: Set<int>, x: Set<int>)
    requires
        x.finite(),
        small.subset_of(x),
        x.len() <= small.len(),
    ensures
        x == small,
{
    vstd::set_lib::lemma_len_subset(small, x);
    if !(x =~= small) {
        let e = choose|e: int| x.contains(e) && !small.contains(e);
        vstd::set_lib::lemma_len_subset(small, x.remove(e));
    }
}

/// Closing a domain by its cardinality admits exactly the sets that it admitted.
pub proof fn law_card_closed_keeps_members(d: SetDomainView, x: Set<int>)
    requires
        d.lub.finite(),
    ensures
        set_member(d, x) <==> set_member(card_closed(d), x),
{
    if set_member(d, x) {
        if d.glb.len() == d.card_max {
            lemma_subset_same_size(d.glb, x);
            assert(x.subset_of(d.lub.difference(d.lub.difference(d.glb))));
        } else if d.lub.len() == d.card_min {
            vstd::set_lib::lemma_len_subset(x, d.lub);
            lemma_subset_same_size(x, d.lub);
            assert(d.glb.union(d.lub.difference(d.glb)).subset_of(x));
        }
    }
    if set_member(card_closed(d), x) {
        if d.glb.len() == d.card_max {
        } else if d.lub.len() == d.card_min {
        }
    }
}

/// Closes the bounds of `d` by its cardinality range (see [`card_closed`]).
pub fn close_by_cardinality(d: &mut SetDomain)
    ensures
        final(d)@ == card_closed(old(d)@),
{
    let ghost d0 = d@;
    let undecided = d.undecided();
    let glb_len = d.glb().len();
    let lub_len = d.lub().len();
    if glb_len == d.card_max() {
        let mut k: usize = 0;
        proof {
            assert(undecided@.take(0).map_values(|v: i32| v as int) =~= Seq::<int>::empty());
            assert(d0.lub.difference(values_of(undecided@.take(0))) =~= d0.lub);
        }
        while k < undecided.len()
            invariant
                0 <= k <= undecided@.len(),
                d@ == (SetDomainView { lub: d0.lub.difference(values_of(undecided@.take(k as int))), ..d0 }),
            decreases undecided@.len() - k,
        {
            let v = undecided[k];
            proof {
                assert(undecided@.take(k + 1).map_values(|u: i32| u as int) =~= undecided@.take(k as int).map_values(
                    |u: i32| u as int,
                ).push(v as int));
                lemma_to_set_push(undecided@.take(k as int).map_values(|u: i32| u as int), v as int);
                assert(values_of(undecided@.take(k + 1)) =~= values_of(undecided@.take(k as int)).insert(v as int));
            }
            d.force_out(v);
            proof {
                assert(d@.lub =~= d0.lub.difference(values_of(undecided@.take(k + 1))));
            }
            k = k + 1;
        }
        proof {
            assert(undecided@.take(k as int) =~= undecided@);
            assert(d@ =~= card_closed(d0));
        }
    } else if lub_len == d.card_min() {
        let mut k: usize = 0;
        proof {
            assert(undecided@.take(0).map_values(|v: i32| v as int) =~= Seq::<int>::empty());
            assert(d0.glb.union(values_of(undecided@.take(0))) =~= d0.glb);
        }
        while k < undecided.len()
            invariant
                0 <= k <= undecided@.len(),
                d@ == (SetDomainView { glb: d0.glb.union(values_of(undecided@.take(k as int))), ..d0 }),
            decreases undecided@.len() - k,
        {
            let v = undecided[k];
            proof {
                assert(undecided@.take(k + 1).map_values(|u: i32| u as int) =~= undecided@.take(k as int).map_values(
                    |u: i32| u as int,
                ).push(v as int));
                lemma_to_set_push(undecided@.take(k as int).map_values(|u: i32| u as int), v as int);
                assert(values_of(undecided@.take(k + 1)) =~= values_of(undecided@.take(k as int)).insert(v as int));
            }
            d.force_in(v);
            proof {
                assert(d@.glb =~= d0.glb.union(values_of(undecided@.take(k + 1))));
            }
            k = k + 1;
        }
        proof {
            assert(undecided@.take(k as int) =~= undecided@);
            assert(d@ =~= card_closed(d0));
        }
    }
}

/// Propagates set cardinality bounds already stored in the domain.
pub struct SetCardPropagator {
    /// The set variable.
    pub var: VariableId,
}

impl SetCardPropagator {
    /// Creates the propagator for `var`.
    pub fn new(var: VariableId) -> (p: Self)
        ensures
            p.var == var,
    {
        SetCardPropagator { var }
    }

    /// The variable whose domain this propagator reads.
    pub fn watched_variables(&self) -> (w: Vec<VariableId>)
        ensures
            w@ == seq![self.var],
    {
        let w = vec![self.var];
        proof {
            assert(w@ =~= seq![self.var]);
        }
        w
    }

    /// Fails on a domain that admits no set; otherwise closes its bounds by its
    /// cardinality (see [`card_closed`]).
    pub fn propagate(&mut self, sets: &mut SetStore) -> (status: PropagationStatus)
        requires
            old(self).var.index < old(sets)@.len(),
        ensures
            *final(self) == *old(self),
            ({
                let x = old(self).var.index as int;
                let d = old(sets)@[x];
                if set_domain_empty(d) {
                    final(sets)@ == old(sets)@ && status == PropagationStatus::Failure
                } else {
                    &&& final(sets)@ == old(sets)@.update(x, card_closed(d))
                    &&& status == (if card_closed(d) != d {
                        PropagationStatus::OkChanged
                    } else {
                        PropagationStatus::OkNoChange
                    })
                }
            }),
    {
        let var = self.var;
        let ghost x = var.index as int;
        let ghost s0 = sets@;
        let ghost d = s0[x];
        if sets.domain(var).is_empty() {
            return PropagationStatus::Failure;
        }
        let glb_len = sets.domain(var).glb().len();
        let lub_len = sets.domain(var).lub().len();
        let card_min = sets.domain(var).card_min();
        let card_max = sets.domain(var).card_max();
        let undecided = sets.domain(var).undecided();
        if glb_len == card_max {
            let none: Vec<i32> = Vec::new();
            proof {
                assert(none@.map_values(|v: i32| v as int) =~= Seq::<int>::empty());
                assert(values_of(none@) =~= Set::<int>::empty());
                assert(values_of(undecided@).difference(values_of(none@)) =~= d.lub.difference(d.glb));
            }
            let changed = force_out_missing(sets, var, &undecided, &none);
            proof {
                assert(sets@ =~= s0.update(x, card_closed(d)));
                if !changed {
                    assert(sets@ == s0);
                    assert(card_closed(d) == sets@[x]);
                } else if sets@[x] == s0[x] {
                    assert(sets@ =~= s0);
                }
            }
            return if changed {
                PropagationStatus::OkChanged
            } else {
                PropagationStatus::OkNoChange
            };
        }
        if lub_len == card_min {
            let changed = force_all_in(sets, var, &undecided);
            proof {
                assert(sets@ =~= s0.update(x, card_closed(d)));
                if !changed {
                    assert(sets@ == s0);
                    assert(card_closed(d) == sets@[x]);
                } else if sets@[x] == s0[x] {
                    assert(sets@ =~= s0);
                }
            }
            return if changed {
                PropagationStatus::OkChanged
            } else {
                PropagationStatus::OkNoChange
            };
        }
        proof {
            assert(s0.update(x, card_closed(d)) =~= s0);
        }
        PropagationStatus::OkNoChange
    }
}

} // verus!
