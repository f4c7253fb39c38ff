//! Propagation of `left != right + offset`.
use vstd::prelude::*;

use crate::domain::{DomainStore, PropagationStatus, VariableId};
use crate::less_than::is_singleton;
use crate::solutions::{assignment_in, keeps};

verus! {

/// The value of a singleton set.
pub open spec fn single_value(s: Set<int>) -> int {
    choose|v: int| s == set![v]
}

/// Removes from the domain at `target` the value `pivot + shift` when the domain at
/// `source` holds the single value `pivot`.
pub open spec fn exclude_from_fixed(s: Seq<Set<int>>, source: int, target: int, shift: int) -> Seq<Set<int>> {
    if is_singleton(s[source]) {
        s.update(target, s[target].remove(single_value(s[source]) + shift))
    } else {
        s
    }
}

/// Store after propagating `left != right + offset`: a fixed `right` removes its
/// shifted value from `left`, then a fixed `left` removes its shifted value from `right`.
pub open spec fn not_equal_offset_result(s: Seq<Set<int>>, li: int, ri: int, offset: int) -> Seq<Set<int>> {
    exclude_from_fixed(exclude_from_fixed(s, ri, li, offset), li, ri, -offset)
}

/// Status after a propagation that took the store from `s` to `t` and reads `li`, `ri`.
pub open spec fn pair_status(s: Seq<Set<int>>, t: Seq<Set<int>>, li: int, ri: int) -> PropagationStatus {
    if t[li].is_empty() || t[ri].is_empty() {
        PropagationStatus::Failure
    } else if t != s {
        PropagationStatus::OkChanged
    } else {
        PropagationStatus::OkNoChange
    }
}

/// The value of a singleton domain.
pub proof fn lemma_single_value_of(s: Set<int>, v: int)
    requires
        s == set![v],
    ensures
        is_singleton(s),
        single_value(s) == v,
{
    lemma_single_value(s, v);
}

proof fn lemma_single_value(s: Set<int>, v: int)
    requires
        s == set![v],
    ensures
        is_singleton(s),
        single_value(s) == v,
{
    assert(is_singleton(s));
    let c = single_value(s);
    assert(set![c].contains(c));
}

/// Propagates `left != right + offset`.
pub struct NotEqualOffsetPropagator {
    /// The left-hand variable.
    pub left: VariableId,
    /// The right-hand variable.
    pub right: VariableId,
    /// The constant added to `right`.
    pub offset: i32,
}

impl NotEqualOffsetPropagator {
    /// Creates a propagator for `left != right + offset`.
    pub fn new(left: VariableId, right: VariableId, offset: i32) -> (p: Self)
        ensures
            p.left == left,
            p.right == right,
            p.offset == offset,
    {
        NotEqualOffsetPropagator { left, right, offset }
    }

    /// The variables whose domains this propagator reads.
    pub fn watched_variables(&self) -> (w: Vec<VariableId>)
        ensures
            w@ == seq![self.left, self.right],
    {
        let w = vec![self.left, self.right];
        proof {
            assert(w@ =~= seq![self.left, self.right]);
        }
        w
    }

    /// Removes from each side the value that the other side, once fixed, rules out.
    pub fn propagate(&mut self, store: &mut DomainStore) -> (status: PropagationStatus)
        requires
            old(self).left.index < old(store)@.len(),
            old(self).right.index < old(store)@.len(),
        ensures
            *final(self) == *old(self),
            final(store)@ == not_equal_offset_result(
                old(store)@,
                old(self).left.index as int,
                old(self).right.index as int,
                old(self).offset as int,
            ),
            status == pair_status(old(store)@, final(store)@, old(self).left.index as int, old(self).right.index as int),
    {
        let left = self.left;
        let right = self.right;
        let offset = self.offset as i64;
        let ghost li = left.index as int;
        let ghost ri = right.index as int;
        let ghost s0 = store@;
        let ghost s1 = exclude_from_fixed(s0, ri, li, offset as int);
        store.assert_in_range();
        let mut changed = false;
        if let Some(value) = store.fixed_value(right) {
            proof {
                lemma_single_value(s0[ri], value as int);
            }
            let target = value as i64 + offset;
            if i32::MIN as i64 <= target && target <= i32::MAX as i64 {
                changed = store.remove_value(left, target as i32);
            } else {
                proof {
                    assert(!s0[li].contains(target as int));
                    assert(s0[li].remove(target as int) =~= s0[li]);
                    assert(s1 =~= s0);
                }
            }
        }
        proof {
            assert(store@ == s1);
            if changed {
                assert(s1[li] != s0[li]);
            } else {
                assert(s1 =~= s0);
            }
        }
        let ghost s2 = exclude_from_fixed(s1, li, ri, -offset);
        if let Some(value) = store.fixed_value(left) {
            proof {
                lemma_single_value(s1[li], value as int);
            }
            let target = value as i64 - offset;
            if i32::MIN as i64 <= target && target <= i32::MAX as i64 {
                if store.remove_value(right, target as i32) {
                    changed = true;
                }
            } else {
                proof {
                    assert(!s1[ri].contains(target as int));
                    assert(s1[ri].remove(target as int) =~= s1[ri]);
                    assert(s2 =~= s1);
                }
            }
        }
        proof {
            assert(store@ == s2);
            if changed {
                if s1 != s0 {
                    assert(s1[li] != s0[li]);
                    assert(!(s1[li] =~= s0[li]));
                    let x = choose|x: int| s1[li].contains(x) != s0[li].contains(x);
                    assert(!s2[li].contains(x) || li == ri);
                    assert(s2[li] != s0[li]);
                } else {
                    assert(s2 != s1);
                }
            } else {
                assert(s2 =~= s1);
            }
        }
        if store.is_empty(left) || store.is_empty(right) {
            PropagationStatus::Failure
        } else if changed {
            PropagationStatus::OkChanged
        } else {
            PropagationStatus::OkNoChange
        }
    }
}

/// The constraint `left != right + offset` on the variables at `li` and `ri`.
pub open spec fn ne_holds(li: int, ri: int, offset: int) -> spec_fn(Seq<int>) -> bool {
    |sigma: Seq<int>| sigma[li] != sigma[ri] + offset
}

/// Propagating `left != right + offset` on distinct variables keeps every pair of
/// values `x`, `y` of the two domains with `x != y + offset`.
pub proof fn law_not_equal_offset_keeps_pairs(s: Seq<Set<int>>, li: int, ri: int, offset: int, x: int, y: int)
    requires
        0 <= li < s.len() && 0 <= ri < s.len() && li != ri,
        s[li].contains(x) && s[ri].contains(y),
        x != y + offset,
    ensures
        not_equal_offset_result(s, li, ri, offset)[li].contains(x),
        not_equal_offset_result(s, li, ri, offset)[ri].contains(y),
        forall|k: int|
            0 <= k < s.len() && k != li && k != ri ==> #[trigger] not_equal_offset_result(s, li, ri, offset)[k] == s[k],
{
    let s1 = exclude_from_fixed(s, ri, li, offset);
    if is_singleton(s[ri]) {
        let w = choose|w: int| s[ri] == set![w];
        lemma_single_value_of(s[ri], w);
        assert(set![w].contains(y));
    }
    if is_singleton(s1[li]) {
        let w = choose|w: int| s1[li] == set![w];
        lemma_single_value_of(s1[li], w);
        assert(set![w].contains(x));
    }
}

/// Propagating `left != right + offset` keeps every solution.
pub proof fn law_not_equal_offset_keeps_solutions(s: Seq<Set<int>>, li: int, ri: int, offset: int)
    requires
        0 <= li < s.len(),
        0 <= ri < s.len(),
    ensures
        keeps(s, not_equal_offset_result(s, li, ri, offset), ne_holds(li, ri, offset)),
{
    let c = ne_holds(li, ri, offset);
    let s1 = exclude_from_fixed(s, ri, li, offset);
    let s2 = exclude_from_fixed(s1, li, ri, -offset);
    assert forall|sigma: Seq<int>| assignment_in(s, sigma) && #[trigger] c(sigma) implies assignment_in(s2, sigma) by {
        assert forall|i: int| 0 <= i < s.len() implies #[trigger] s1[i].contains(sigma[i]) by {
            assert(s[i].contains(sigma[i]));
            if is_singleton(s[ri]) && i == li {
                let w = choose|w: int| s[ri] == set![w];
                assert(s[ri].contains(sigma[ri]));
                assert(sigma[ri] == w);
                lemma_single_value(s[ri], sigma[ri]);
            }
        }
        assert forall|i: int| 0 <= i < s.len() implies #[trigger] s2[i].contains(sigma[i]) by {
            assert(s1[i].contains(sigma[i]));
            if is_singleton(s1[li]) && i == ri {
                assert(s1[li].contains(sigma[li]));
                let w = choose|w: int| s1[li] == set![w];
                assert(sigma[li] == w);
                lemma_single_value(s1[li], sigma[li]);
            }
        }
    }
}

} // verus!
