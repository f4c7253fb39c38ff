//! Propagation of `left == right` for set variables.
use vstd::prelude::*;

use crate::domain::{PropagationStatus, VariableId};
use crate::set_domain::{
    force_all_in, force_out_missing, law_empty_set_domain_has_no_member, lemma_set_narrow_step, lemma_set_narrows_refl, set_domain_empty, set_narrows,
    set_member, values_of, SetDomainView, SetStore,
};

verus! {

/// The domain `l` cut by the bounds of `r`: values forced in either are forced in, and
/// only values possible in both stay possible.
pub open spec fn meet_bounds(l: SetDomainView, r: SetDomainView) -> SetDomainView {
    SetDomainView { glb: l.glb.union(r.glb), lub: l.lub.intersect(r.lub), ..l }
}

/// Store after the bound phase of `left == right`.
pub open spec fn set_eq_bounds(s: Seq<SetDomainView>, li: int, ri: int) -> Seq<SetDomainView> {
    s.update(li, meet_bounds(s[li], s[ri])).update(ri, meet_bounds(s[ri], s[li]))
}

/// The smaller of two naturals.
pub open spec fn nat_min(a: nat, b: nat) -> nat {
    if a <= b { a } else { b }
}

/// The larger of two naturals.
pub open spec fn nat_max(a: nat, b: nat) -> nat {
    if a >= b { a } else { b }
}

/// Least cardinality shared by both sides after the bound phase.
pub open spec fn shared_card_min(l: SetDomainView, r: SetDomainView) -> nat {
    nat_max(nat_max(l.card_min, r.card_min), l.glb.len())
}

/// Greatest cardinality shared by both sides after the bound phase.
pub open spec fn shared_card_max(l: SetDomainView, r: SetDomainView) -> nat {
    nat_min(nat_min(nat_min(l.card_max, r.card_max), l.lub.len()), r.lub.len())
}

/// The domain with cardinality bounds `mn..=mx`.
pub open spec fn with_cards(d: SetDomainView, mn: nat, mx: nat) -> SetDomainView {
    SetDomainView { card_min: mn, card_max: mx, ..d }
}

/// Status after a set propagation that took the store from `s` to `t` and reads `li`
/// and `ri`.
pub open spec fn set_pair_status(s: Seq<SetDomainView>, t: Seq<SetDomainView>, li: int, ri: int) -> PropagationStatus {
    if set_domain_empty(t[li]) || set_domain_empty(t[ri]) {
        PropagationStatus::Failure
    } else if t != s {
        PropagationStatus::OkChanged
    } else {
        PropagationStatus::OkNoChange
    }
}

/// The two domains that `left == right` leaves (for distinct variables): both bounds
/// met, then both cardinality ranges cut to the shared one.
pub open spec fn set_eq_after(l: SetDomainView, r: SetDomainView) -> (SetDomainView, SetDomainView) {
    let l1 = meet_bounds(l, r);
    let r1 = meet_bounds(r, l);
    let mn = shared_card_min(l1, r1);
    let mx = shared_card_max(l1, r1);
    (with_cards(l1, mn, mx), with_cards(r1, mn, mx))
}

/// A set that both domains admit is admitted by both domains after propagation, and
/// rules out its failure.
pub proof fn law_set_eq_keeps_solutions(l: SetDomainView, r: SetDomainView, x: Set<int>)
    requires
        l.lub.finite(),
        r.lub.finite(),
        set_member(l, x),
        set_member(r, x),
    ensures
        set_member(meet_bounds(l, r), x),
        set_member(meet_bounds(r, l), x),
        shared_card_min(meet_bounds(l, r), meet_bounds(r, l)) <= shared_card_max(meet_bounds(l, r), meet_bounds(r, l)),
        set_member(set_eq_after(l, r).0, x),
        set_member(set_eq_after(l, r).1, x),
        !set_domain_empty(meet_bounds(l, r)),
        !set_domain_empty(meet_bounds(r, l)),
        !set_domain_empty(set_eq_after(l, r).0),
        !set_domain_empty(set_eq_after(l, r).1),
{
    let l1 = meet_bounds(l, r);
    let r1 = meet_bounds(r, l);
    vstd::set_lib::lemma_len_subset(l1.glb, x);
    vstd::set_lib::lemma_len_subset(x, l.lub);
    vstd::set_lib::lemma_len_subset(x, r.lub);
    vstd::set_lib::lemma_len_subset(x, l1.lub);
    vstd::set_lib::lemma_len_subset(x, r1.lub);
    assert(l1.lub.finite());
    assert(r1.lub.finite());
    let (l2, r2) = set_eq_after(l, r);
    if set_domain_empty(l1) {
        law_empty_set_domain_has_no_member(l1, x);
    }
    if set_domain_empty(r1) {
        law_empty_set_domain_has_no_member(r1, x);
    }
    if set_domain_empty(l2) {
        law_empty_set_domain_has_no_member(l2, x);
    }
    if set_domain_empty(r2) {
        law_empty_set_domain_has_no_member(r2, x);
    }
}

/// A copy of a list of values.
pub fn copy_values(r: &Vec<i32>) -> (c: Vec<i32>)
    ensures
        c@ == r@,
{
    let c = r.clone();
    proof {
        assert(c@ =~= r@);
    }
    c
}

/// Propagates `left == right` for set variables.
pub struct SetEqPropagator {
    /// One side.
    pub left: VariableId,
    /// The other side.
    pub right: VariableId,
}

impl SetEqPropagator {
    /// Creates a propagator for `left == right`.
    pub fn new(left: VariableId, right: VariableId) -> (p: Self)
        ensures
            p.left == left,
            p.right == right,
    {
        SetEqPropagator { left, right }
    }

    /// The variables whose domains this propagator reads.
    pub fn watched_variables(&self) -> (w: Vec<VariableId>)
        ensures
            w@ == seq![self.left, self.right],
    {
        let w = vec![self.left, self.right];
        proof {
            assert(w@ =~= seq![self.left, self.right]);
        }
        w
    }

    /// Gives both sides the union of the forced values and the intersection of the
    /// possible values, then the cardinality range that both allow; fails as soon as a
    /// domain admits no set.
    pub fn propagate(&mut self, sets: &mut SetStore) -> (status: PropagationStatus)
        requires
            old(self).left.index < old(sets)@.len(),
            old(self).right.index < old(sets)@.len(),
        ensures
            *final(self) == *old(self),
            ({
                let li = old(self).left.index as int;
                let ri = old(self).right.index as int;
                let s0 = old(sets)@;
                let s1 = set_eq_bounds(s0, li, ri);
                let mn = shared_card_min(s1[li], s1[ri]);
                let mx = shared_card_max(s1[li], s1[ri]);
                let s2 = s1.update(li, with_cards(s1[li], mn, mx)).update(ri, with_cards(s1[ri], mn, mx));
                if set_domain_empty(s0[li]) || set_domain_empty(s0[ri]) {
                    final(sets)@ == s0 && status == PropagationStatus::Failure
                } else if set_domain_empty(s1[li]) || set_domain_empty(s1[ri]) || mn > mx {
                    final(sets)@ == s1 && status == PropagationStatus::Failure
                } else {
                    final(sets)@ == s2 && status == set_pair_status(s0, s2, li, ri)
                }
            }),
    {
        let left = self.left;
        let right = self.right;
        let ghost li = left.index as int;
        let ghost ri = right.index as int;
        let ghost s0 = sets@;
        if sets.domain(left).is_empty() || sets.domain(right).is_empty() {
            return PropagationStatus::Failure;
        }
        let lg = copy_values(sets.domain(left).glb());
        let rg = copy_values(sets.domain(right).glb());
        let ll = copy_values(sets.domain(left).lub());
        let rl = copy_values(sets.domain(right).lub());
        proof {
            lemma_set_narrows_refl(s0);
        }
        let c1 = force_all_in(sets, right, &lg);
        let ghost t1 = sets@;
        let c2 = force_all_in(sets, left, &rg);
        let ghost t2 = sets@;
        proof {
            lemma_set_narrow_step(s0, t1, t2, c1, c2);
        }
        let c3 = force_out_missing(sets, left, &ll, &rl);
        let ghost t3 = sets@;
        proof {
            lemma_set_narrow_step(s0, t2, t3, c1 || c2, c3);
        }
        let c4 = force_out_missing(sets, right, &rl, &ll);
        proof {
            lemma_set_narrow_step(s0, t3, sets@, c1 || c2 || c3, c4);
            let l = s0[li];
            let r = s0[ri];
            let f = sets@;
            let target = set_eq_bounds(s0, li, ri);
            if li == ri {
                assert(l == r);
                assert(f[li].glb =~= l.glb);
                assert(f[li].lub =~= l.lub);
                assert(meet_bounds(l, r).glb =~= l.glb);
                assert(meet_bounds(l, r).lub =~= l.lub);
                assert(f[li] == target[li]);
            } else {
                assert(f[li].glb =~= meet_bounds(l, r).glb);
                assert(f[li].lub =~= meet_bounds(l, r).lub);
                assert(f[ri].glb =~= meet_bounds(r, l).glb);
                assert(f[ri].lub =~= meet_bounds(r, l).lub);
                assert(f[li] == target[li]);
                assert(f[ri] == target[ri]);
            }
            assert(f =~= target);
        }
        let mut changed = c1 || c2 || c3 || c4;
        let ghost s1 = sets@;
        if sets.domain(left).is_empty() || sets.domain(right).is_empty() {
            return PropagationStatus::Failure;
        }
        let lcmin = sets.domain(left).card_min();
        let rcmin = sets.domain(right).card_min();
        let lcmax = sets.domain(left).card_max();
        let rcmax = sets.domain(right).card_max();
        let lglb = sets.domain(left).glb().len();
        let llub = sets.domain(left).lub().len();
        let rlub = sets.domain(right).lub().len();
        let mut card_min = if lcmin >= rcmin { lcmin } else { rcmin };
        if lglb > card_min {
            card_min = lglb;
        }
        let mut card_max = if lcmax <= rcmax { lcmax } else { rcmax };
        if llub < card_max {
            card_max = llub;
        }
        if rlub < card_max {
            card_max = rlub;
        }
        if card_min > card_max {
            return PropagationStatus::Failure;
        }
        if card_min != lcmin || card_max != lcmax {
            let ghost t = sets@;
            let step = sets.tighten_cardinality(left, card_min, card_max);
            proof {
                crate::set_domain::lemma_set_update_narrows(t, li, sets@[li]);
                lemma_set_narrow_step(s0, t, sets@, changed, step);
            }
            changed = changed || step;
        }
        let ghost t4 = sets@;
        if card_min != rcmin || card_max != rcmax {
            let step = sets.tighten_cardinality(right, card_min, card_max);
            proof {
                crate::set_domain::lemma_set_update_narrows(t4, ri, sets@[ri]);
                lemma_set_narrow_step(s0, t4, sets@, changed, step);
            }
            changed = changed || step;
        }
        proof {
            let mn = shared_card_min(s1[li], s1[ri]);
            let mx = shared_card_max(s1[li], s1[ri]);
            assert(card_min == mn && card_max == mx);
            assert(sets@ =~= s1.update(li, with_cards(s1[li], mn, mx)).update(ri, with_cards(s1[ri], mn, mx)));
        }
        if sets.domain(left).is_empty() || sets.domain(right).is_empty() {
            PropagationStatus::Failure
        } else if changed {
            PropagationStatus::OkChanged
        } else {
            PropagationStatus::OkNoChange
        }
    }
}

} // verus!
