//! Propagation of `value ∈ set` for an integer variable and a set variable.
use vstd::prelude::*;

use crate::domain::{seq_has, DomainStore, PropagationStatus, VariableId};
use crate::set_domain::{
    law_empty_set_domain_has_no_member, lemma_values_of_has, set_domain_empty, set_member, values_of, SetDomainView,
    SetStore,
};
use crate::set_eq::copy_values;

verus! {

/// The values that the integer may take: the fixed set when `glb` and `lub` have the
/// same size, otherwise `lub`.
pub open spec fn allowed_values(s: SetDomainView) -> Set<int> {
    if s.glb.len() == s.lub.len() { s.glb } else { s.lub }
}

/// The set domain with `v` forced in.
pub open spec fn with_member(s: SetDomainView, v: int) -> SetDomainView {
    SetDomainView { glb: s.glb.insert(v), ..s }
}

/// The domains that [`SetInPropagator::propagate`] computes from the integer's domain
/// `v0` and the set's domain `s0`: the integer's allowed values, the set domain after a
/// fixed integer is forced in, and after a value fixed by the cut is forced in too.
pub open spec fn set_in_after(v0: Set<int>, s0: SetDomainView) -> (Set<int>, SetDomainView, SetDomainView) {
    let s1 = if exists|v: int| v0 == set![v] {
        with_member(s0, crate::not_equal_offset::single_value(v0))
    } else {
        s0
    };
    let v1 = v0.intersect(allowed_values(s0));
    let s2 = if exists|v: int| v1 == set![v] {
        with_member(s1, crate::not_equal_offset::single_value(v1))
    } else {
        s1
    };
    (v1, s1, s2)
}

/// A value `v` of the integer's domain and a set `x` of the set's domain with `v` in
/// `x` survive the propagation, and rule out its failure.
pub proof fn law_set_in_keeps_solutions(v0: Set<int>, s0: SetDomainView, v: int, x: Set<int>)
    requires
        s0.lub.finite(),
        v0.contains(v),
        set_member(s0, x),
        x.contains(v),
    ensures
        forall|w: int| v0 == set![w] ==> s0.lub.contains(w),
        set_in_after(v0, s0).0.contains(v),
        set_member(set_in_after(v0, s0).1, x),
        set_member(set_in_after(v0, s0).2, x),
        !set_domain_empty(set_in_after(v0, s0).2),
{
    let (v1, s1, s2) = set_in_after(v0, s0);
    assert forall|w: int| v0 == set![w] implies s0.lub.contains(w) by {
        assert(set![w].contains(v));
    }
    if s0.glb.len() == s0.lub.len() {
        vstd::set_lib::lemma_len_subset(x, s0.lub);
        vstd::set_lib::lemma_len_subset(s0.glb, x);
        if !(s0.lub =~= s0.glb) {
            let e = choose|e: int| s0.lub.contains(e) && !s0.glb.contains(e);
            vstd::set_lib::lemma_len_subset(s0.glb, s0.lub.remove(e));
        }
    }
    assert(v1.contains(v));
    if exists|w: int| v0 == set![w] {
        let w = crate::not_equal_offset::single_value(v0);
        assert(v0 == set![w]);
        assert(set![w].contains(v));
    }
    assert(set_member(s1, x));
    if exists|w: int| v1 == set![w] {
        let w = crate::not_equal_offset::single_value(v1);
        assert(v1 == set![w]);
        assert(set![w].contains(v));
    }
    assert(set_member(s2, x));
    if set_domain_empty(s2) {
        law_empty_set_domain_has_no_member(s2, x);
    }
}

/// Propagates `value ∈ set` for an integer variable and a set variable.
pub struct SetInPropagator {
    /// The integer variable.
    pub value: VariableId,
    /// The set variable.
    pub set: VariableId,
}

impl SetInPropagator {
    /// Creates a propagator for `value ∈ set`.
    pub fn new(value: VariableId, set: VariableId) -> (p: Self)
        ensures
            p.value == value,
            p.set == set,
    {
        SetInPropagator { value, set }
    }

    /// The variables whose domains this propagator reads: the integer, then the set.
    pub fn watched_variables(&self) -> (w: Vec<VariableId>)
        ensures
            w@ == seq![self.value, self.set],
    {
        let w = vec![self.value, self.set];
        proof {
            assert(w@ =~= seq![self.value, self.set]);
        }
        w
    }

    /// A fixed integer must be a possible member and is forced in; the integer keeps
    /// only allowed values (failing when none is left); a value fixed by that is forced
    /// in. Fails when the set domain ends up admitting no set.
    pub fn propagate(&mut self, ints: &mut DomainStore, sets: &mut SetStore) -> (status: PropagationStatus)
        requires
            old(self).value.index < old(ints)@.len(),
            old(self).set.index < old(sets)@.len(),
        ensures
            *final(self) == *old(self),
            ({
                let vi = old(self).value.index as int;
                let si = old(self).set.index as int;
                let v0 = old(ints)@[vi];
                let s0 = old(sets)@[si];
                let fixed_in_lub = forall|v: int| v0 == set![v] ==> s0.lub.contains(v);
                let (v1, s1, s2) = set_in_after(v0, s0);
                if !fixed_in_lub {
                    &&& final(ints)@ == old(ints)@ && final(sets)@ == old(sets)@
                    &&& status == PropagationStatus::Failure
                } else if !v0.is_empty() && v1.is_empty() {
                    &&& final(ints)@ == old(ints)@.update(vi, v1)
                    &&& final(sets)@ == old(sets)@.update(si, s1)
                    &&& status == PropagationStatus::Failure
                } else {
                    &&& final(ints)@ == old(ints)@.update(vi, v1)
                    &&& final(sets)@ == old(sets)@.update(si, s2)
                    &&& status == (if set_domain_empty(s2) {
                        PropagationStatus::Failure
                    } else if v1 != v0 || s2 != s0 {
                        PropagationStatus::OkChanged
                    } else {
                        PropagationStatus::OkNoChange
                    })
                }
            }),
    {
        let value_id = self.value;
        let set_id = self.set;
        let ghost vi = value_id.index as int;
        let ghost si = set_id.index as int;
        let ghost i0 = ints@;
        let ghost t0 = sets@;
        let ghost v0 = i0[vi];
        let ghost s0 = t0[si];
        let glb = copy_values(sets.domain(set_id).glb());
        let lub = copy_values(sets.domain(set_id).lub());
        let fixed = ints.fixed_value(value_id);
        let mut changed = false;
        if let Some(v) = fixed {
            proof {
                crate::not_equal_offset::lemma_single_value_of(v0, v as int);
                lemma_values_of_has(lub@, v as int);
            }
            if !crate::set_domain::vec_has(&lub, v) {
                return PropagationStatus::Failure;
            }
            changed = sets.force_in(set_id, v);
        } else {
            proof {
                assert(!(exists|v: int| v0 == set![v]));
            }
        }
        let ghost t1 = sets@;
        proof {
            assert(t1[si] == (if exists|v: int| v0 == set![v] {
                with_member(s0, crate::not_equal_offset::single_value(v0))
            } else {
                s0
            }));
        }
        let use_glb = glb.len() == lub.len();
        let allowed = if use_glb { &glb } else { &lub };
        proof {
            assert(values_of(allowed@) == allowed_values(s0));
        }
        let ghost al = allowed_values(s0);
        let values = ints.values(value_id);
        let mut any_allowed = false;
        let mut removed = false;
        let mut k: usize = 0;
        proof {
            assert(i0[vi].filter(|u: int| al.contains(u) || !seq_has(values@.take(0), u)) =~= v0);
            assert(i0.update(vi, v0) =~= i0);
        }
        while k < values.len()
            invariant
                0 <= k <= values@.len(),
                vi == value_id.index,
                vi < i0.len(),
                v0 == i0[vi],
                sets@ == t1,
                al == values_of(allowed@),
                forall|j: int, q: int| 0 <= j < q < values@.len() ==> values@[j] < values@[q],
                forall|q: int| 0 <= q < values@.len() ==> v0.contains(#[trigger] values@[q] as int),
                forall|x: int| #[trigger] v0.contains(x) ==> seq_has(values@, x),
                ints@ == i0.update(vi, v0.filter(|u: int| al.contains(u) || !seq_has(values@.take(k as int), u))),
                any_allowed == exists|q: int| 0 <= q < k && al.contains(#[trigger] values@[q] as int),
                removed == exists|q: int| 0 <= q < k && !al.contains(#[trigger] values@[q] as int),
            decreases values@.len() - k,
        {
            let v = values[k];
            let ok = crate::set_domain::vec_has(allowed, v);
            proof {
                lemma_values_of_has(allowed@, v as int);
                crate::regular::lemma_seq_has_take(values@, k as int);
            }
            let ghost before = v0.filter(|u: int| al.contains(u) || !seq_has(values@.take(k as int), u));
            let ghost after = v0.filter(|u: int| al.contains(u) || !seq_has(values@.take(k + 1), u));
            if ok {
                any_allowed = true;
                proof {
                    assert(after =~= before);
                }
            } else {
                ints.remove_value(value_id, v);
                removed = true;
                proof {
                    assert(after =~= before.remove(v as int));
                }
            }
            proof {
                assert(ints@ =~= i0.update(vi, after));
            }
            k = k + 1;
        }
        let ghost v1 = v0.intersect(al);
        proof {
            assert(values@.take(k as int) =~= values@);
            assert(v0.filter(|u: int| al.contains(u) || !seq_has(values@.take(k as int), u)) =~= v1);
            assert(any_allowed == !v1.is_empty()) by {
                if any_allowed {
                    let q = choose|q: int| 0 <= q < k && al.contains(#[trigger] values@[q] as int);
                    assert(v1.contains(values@[q] as int));
                }
                if !v1.is_empty() {
                    let x = v1.choose();
                    assert(v1.contains(x));
                    let q = choose|q: int| 0 <= q < values@.len() && values@[q] == x;
                    assert(al.contains(values@[q] as int));
                }
            }
            assert(removed == (v1 != v0)) by {
                if removed {
                    let q = choose|q: int| 0 <= q < k && !al.contains(#[trigger] values@[q] as int);
                    assert(v0.contains(values@[q] as int) && !v1.contains(values@[q] as int));
                }
                if v1 != v0 {
                    assert(!(v1 =~= v0));
                    let x = choose|x: int| v1.contains(x) != v0.contains(x);
                    let q = choose|q: int| 0 <= q < values@.len() && values@[q] == x;
                    assert(!al.contains(values@[q] as int));
                }
            }
        }
        if values.len() > 0 && !any_allowed {
            proof {
                assert(v0.contains(values@[0] as int));
                assert(v1.is_empty());
            }
            return PropagationStatus::Failure;
        }
        proof {
            if values.len() == 0 {
                assert(v0.is_empty()) by {
                    if !v0.is_empty() {
                        let x = v0.choose();
                        assert(v0.contains(x));
                        assert(seq_has(values@, x));
                    }
                }
                assert(v1 =~= v0);
            }
        }
        changed = changed || removed;
        if let Some(w) = ints.fixed_value(value_id) {
            proof {
                crate::not_equal_offset::lemma_single_value_of(v1, w as int);
            }
            if sets.force_in(set_id, w) {
                changed = true;
            }
        } else {
            proof {
                assert(!(exists|v: int| v1 == set![v]));
            }
        }
        proof {
            let s2 = sets@[si];
            assert(sets@ =~= t0.update(si, s2));
            assert(changed == (v1 != v0 || s2 != s0)) by {
                assert(s0.glb.subset_of(t1[si].glb));
                assert(t1[si].glb.subset_of(s2.glb));
                if s2 != s0 && !(v1 != v0) {
                    assert(!(s2.glb =~= s0.glb));
                }
            }
        }
        if sets.domain(set_id).is_empty() {
            PropagationStatus::Failure
        } else if changed {
            PropagationStatus::OkChanged
        } else {
            PropagationStatus::OkNoChange
        }
    }
}

} // verus!
