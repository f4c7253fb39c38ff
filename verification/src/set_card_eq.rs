//! Propagation of `|set| = card` for a set variable and an integer variable.
use vstd::prelude::*;

use crate::domain::{
    between, greatest, least, lemma_greatest_exists, lemma_least_exists, DomainStore, PropagationStatus, VariableId,
};
use crate::set_card::{card_closed, law_card_closed_keeps_members};
use crate::set_domain::{
    force_all_in, force_out_missing, law_empty_set_domain_has_no_member, set_domain_empty, set_member, values_of,
    SetDomainView, SetStore,
};
use crate::set_eq::{nat_max, nat_min, with_cards};

verus! {

/// Least cardinality of the set given the integer's bounds.
pub open spec fn card_eq_min(s: SetDomainView, c: Set<int>) -> nat {
    let lo: nat = if least(c) > 0 { least(c) as nat } else { 0 };
    nat_max(nat_max(s.card_min, lo), s.glb.len())
}

/// Greatest cardinality of the set given the integer's bounds.
pub open spec fn card_eq_max(s: SetDomainView, c: Set<int>) -> nat {
    nat_min(nat_min(s.card_max, greatest(c) as nat), s.lub.len())
}

/// A set `x` that the set domain `s` admits, with its size in the integer domain `c`,
/// stays admitted (and its size stays in the cut integer domain) through
/// `|set| = card`, and rules out its failure.
pub proof fn law_set_card_eq_keeps_solutions(s: SetDomainView, c: Set<int>, x: Set<int>)
    requires
        s.lub.finite(),
        c.finite(),
        set_member(s, x),
        c.contains(x.len() as int),
    ensures
        ({
            let nm = card_eq_min(s, c);
            let nx = card_eq_max(s, c);
            let s1 = with_cards(s, nm, nx);
            let c1 = between(c, nm as int, nx as int);
            &&& !(set_domain_empty(s) || c.is_empty() || greatest(c) < 0 || nm > nx)
            &&& set_member(s1, x) && !set_domain_empty(s1)
            &&& c1.contains(x.len() as int)
            &&& set_member(card_closed(s1), x) && !set_domain_empty(card_closed(s1))
        }),
{
    let k = x.len() as int;
    lemma_least_exists(c);
    lemma_greatest_exists(c);
    vstd::set_lib::lemma_len_subset(s.glb, x);
    vstd::set_lib::lemma_len_subset(x, s.lub);
    let nm = card_eq_min(s, c);
    let nx = card_eq_max(s, c);
    assert(nm <= k <= nx);
    let s1 = with_cards(s, nm, nx);
    assert(set_member(s1, x));
    law_card_closed_keeps_members(s1, x);
    if set_domain_empty(s) {
        law_empty_set_domain_has_no_member(s, x);
    }
    if set_domain_empty(s1) {
        law_empty_set_domain_has_no_member(s1, x);
    }
    if set_domain_empty(card_closed(s1)) {
        law_empty_set_domain_has_no_member(card_closed(s1), x);
    }
}

/// Propagates `|set| = card` for a set variable and an integer cardinality variable.
pub struct SetCardEqPropagator {
    /// The set variable.
    pub set: VariableId,
    /// The integer variable holding its cardinality.
    pub card: VariableId,
}

impl SetCardEqPropagator {
    /// Creates a propagator for `|set| = card`.
    pub fn new(set: VariableId, card: VariableId) -> (p: Self)
        ensures
            p.set == set,
            p.card == card,
    {
        SetCardEqPropagator { set, card }
    }

    /// The variables whose domains this propagator reads: the set, then the integer.
    pub fn watched_variables(&self) -> (w: Vec<VariableId>)
        ensures
            w@ == seq![self.set, self.card],
    {
        let w = vec![self.set, self.card];
        proof {
            assert(w@ =~= seq![self.set, self.card]);
        }
        w
    }

    /// Intersects the set's cardinality range with the integer's range and the sizes of
    /// its bounds, cuts the integer to the result, then closes the set's bounds by its
    /// cardinality; fails when the ranges do not meet or a domain admits nothing.
    pub fn propagate(&mut self, ints: &mut DomainStore, sets: &mut SetStore) -> (status: PropagationStatus)
        requires
            old(self).set.index < old(sets)@.len(),
            old(self).card.index < old(ints)@.len(),
        ensures
            *final(self) == *old(self),
            ({
                let si = old(self).set.index as int;
                let ci = old(self).card.index as int;
                let s = old(sets)@[si];
                let c = old(ints)@[ci];
                let nm = card_eq_min(s, c);
                let nx = card_eq_max(s, c);
                let s1 = with_cards(s, nm, nx);
                let c1 = between(c, nm as int, nx as int);
                let s2 = card_closed(s1);
                if set_domain_empty(s) || c.is_empty() || greatest(c) < 0 || nm > nx {
                    &&& final(sets)@ == old(sets)@ && final(ints)@ == old(ints)@
                    &&& status == PropagationStatus::Failure
                } else if set_domain_empty(s1) {
                    &&& final(sets)@ == old(sets)@.update(si, s1) && final(ints)@ == old(ints)@.update(ci, c1)
                    &&& status == PropagationStatus::Failure
                } else {
                    &&& final(sets)@ == old(sets)@.update(si, s2) && final(ints)@ == old(ints)@.update(ci, c1)
                    &&& status == (if set_domain_empty(s2) {
                        PropagationStatus::Failure
                    } else if s2 != s || c1 != c {
                        PropagationStatus::OkChanged
                    } else {
                        PropagationStatus::OkNoChange
                    })
                }
            }),
    {
        let set_id = self.set;
        let card_id = self.card;
        let ghost si = set_id.index as int;
        let ghost ci = card_id.index as int;
        let ghost t0 = sets@;
        let ghost i0 = ints@;
        let ghost s = t0[si];
        let ghost c = i0[ci];
        if sets.domain(set_id).is_empty() {
            return PropagationStatus::Failure;
        }
        let (card_min_i, card_max_i) = match (ints.min(card_id), ints.max(card_id)) {
            (Some(a), Some(b)) => (a, b),
            _ => {
                return PropagationStatus::Failure;
            },
        };
        proof {
            crate::domain::lemma_least_is(c, card_min_i as int);
            crate::domain::lemma_greatest_is(c, card_max_i as int);
        }
        if card_max_i < 0 {
            return PropagationStatus::Failure;
        }
        let int_lo: usize = if card_min_i > 0 { card_min_i as usize } else { 0 };
        let int_hi: usize = card_max_i as usize;
        let s_min = sets.domain(set_id).card_min();
        let s_max = sets.domain(set_id).card_max();
        let glb_len = sets.domain(set_id).glb().len();
        let lub_len = sets.domain(set_id).lub().len();
        let mut new_min = if s_min >= int_lo { s_min } else { int_lo };
        if glb_len > new_min {
            new_min = glb_len;
        }
        let mut new_max = if s_max <= int_hi { s_max } else { int_hi };
        if lub_len < new_max {
            new_max = lub_len;
        }
        proof {
            assert(new_min == card_eq_min(s, c));
            assert(new_max == card_eq_max(s, c));
        }
        if new_min > new_max {
            return PropagationStatus::Failure;
        }
        let mut changed = false;
        if new_min != s_min || new_max != s_max {
            changed = sets.tighten_cardinality(set_id, new_min, new_max);
        }
        let ghost t1 = sets@;
        proof {
            assert(t1[si] == with_cards(s, new_min as nat, new_max as nat));
            assert(changed == (t1[si] != s));
        }
        let c2 = ints.restrict(card_id, new_min as i32, new_max as i32);
        let ghost c1 = between(c, new_min as int, new_max as int);
        proof {
            if c2 {
                if ints@[ci] == c {
                    assert(ints@ =~= i0);
                }
            } else {
                assert(ints@ == i0);
                assert(c1 == ints@[ci]);
            }
        }
        if sets.domain(set_id).is_empty() {
            return PropagationStatus::Failure;
        }
        let ghost s1 = t1[si];
        let glb_len = sets.domain(set_id).glb().len();
        let lub_len = sets.domain(set_id).lub().len();
        let card_min = sets.domain(set_id).card_min();
        let card_max = sets.domain(set_id).card_max();
        let undecided = sets.domain(set_id).undecided();
        let mut c3 = false;
        if glb_len == card_max {
            let none: Vec<i32> = Vec::new();
            proof {
                assert(none@.map_values(|v: i32| v as int) =~= Seq::<int>::empty());
                assert(values_of(none@) =~= Set::<int>::empty());
                assert(values_of(undecided@).difference(values_of(none@)) =~= s1.lub.difference(s1.glb));
            }
            c3 = force_out_missing(sets, set_id, &undecided, &none);
        } else if lub_len == card_min {
            c3 = force_all_in(sets, set_id, &undecided);
        }
        proof {
            assert(sets@ =~= t0.update(si, card_closed(s1)));
            let s2 = card_closed(s1);
            assert(s.glb.subset_of(s1.glb) && s1.glb.subset_of(s2.glb));
            assert(s2.lub.subset_of(s1.lub) && s1.lub.subset_of(s.lub));
            if c3 {
                assert(sets@ != t1);
                if sets@[si] == t1[si] {
                    assert(sets@ =~= t1);
                }
                assert(s2 != s1);
            } else {
                assert(sets@ == t1);
            }
            if s2 == s && (changed || c3) {
                assert(s2.glb =~= s1.glb);
                assert(s2.lub =~= s1.lub);
            }
        }
        if sets.domain(set_id).is_empty() {
            PropagationStatus::Failure
        } else if changed || c2 || c3 {
            PropagationStatus::OkChanged
        } else {
            PropagationStatus::OkNoChange
        }
    }
}

} // verus!
