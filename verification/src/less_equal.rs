//! Bound-consistent propagation of `left <= right`.
use vstd::prelude::*;

use crate::domain::{at_least, at_most, is_greatest, is_least, DomainStore, PropagationStatus, VariableId};

verus! {

/// Some member of `r` is at least `a`.
pub open spec fn has_ge(r: Set<int>, a: int) -> bool {
    exists|b: int| r.contains(b) && a <= b
}

/// Some member of `l` is at most `b`.
pub open spec fn has_le(l: Set<int>, b: int) -> bool {
    exists|a: int| l.contains(a) && a <= b
}

/// The values of `l` that some value of `r` is at least.
#[verifier::opaque]
pub open spec fn le_left(l: Set<int>, r: Set<int>) -> Set<int> {
    l.filter(|a: int| has_ge(r, a))
}

/// The values of `r` that are at least some value of `l`.
#[verifier::opaque]
pub open spec fn le_right(l: Set<int>, r: Set<int>) -> Set<int> {
    r.filter(|b: int| has_le(l, b))
}

/// Some pair of `l` and `r` satisfies `a <= b`.
#[verifier::opaque]
pub open spec fn le_satisfiable(l: Set<int>, r: Set<int>) -> bool {
    exists|a: int, b: int| l.contains(a) && r.contains(b) && a <= b
}

/// Status after narrowing `(l, r)` to `(nl, nr)`: failure when one is empty, otherwise
/// whether anything was removed.
pub open spec fn narrowed_status(l: Set<int>, r: Set<int>, nl: Set<int>, nr: Set<int>) -> PropagationStatus {
    if nl.is_empty() || nr.is_empty() {
        PropagationStatus::Failure
    } else if nl != l || nr != r {
        PropagationStatus::OkChanged
    } else {
        PropagationStatus::OkNoChange
    }
}

pub proof fn lemma_le_left_bound(l: Set<int>, r: Set<int>, m: int)
    requires
        is_greatest(r, m),
    ensures
        at_most(l, m) == le_left(l, r),
{
    reveal(le_left);
    assert forall|a: int| #[trigger] l.contains(a) implies (a <= m <==> has_ge(r, a)) by {
        if has_ge(r, a) {
            let b = choose|b: int| r.contains(b) && a <= b;
            assert(b <= m);
        }
    }
    assert(at_most(l, m) =~= le_left(l, r));
}

pub proof fn lemma_le_right_bound(l: Set<int>, r: Set<int>, m: int)
    requires
        is_least(l, m),
    ensures
        at_least(r, m) == le_right(l, r),
{
    reveal(le_right);
    assert forall|b: int| #[trigger] r.contains(b) implies (m <= b <==> has_le(l, b)) by {
        if has_le(l, b) {
            let a = choose|a: int| l.contains(a) && a <= b;
            assert(m <= a);
        }
    }
    assert(at_least(r, m) =~= le_right(l, r));
}

/// A step that narrows a set to a subset keeps the running "something was removed"
/// flag exact.
pub proof fn lemma_shrink_flag(orig: Set<int>, prev: Set<int>, next: Set<int>, flag: bool, step: bool)
    requires
        prev.subset_of(orig),
        next.subset_of(prev),
        flag == (prev != orig),
        step == (next != prev),
    ensures
        (flag || step) == (next != orig),
{
    if step && !flag {
        assert(next != orig);
    }
    if flag {
        assert(!(prev =~= orig));
        let x = choose|x: int| orig.contains(x) != prev.contains(x);
        assert(orig.contains(x) && !prev.contains(x));
        assert(!next.contains(x));
    }
    if !flag && !step {
        assert(next == orig);
    }
}

/// Without a pair `a <= b` the bounds already show it: one domain is empty or the
/// smallest left value exceeds the largest right value.
proof fn lemma_le_unsat(l: Set<int>, r: Set<int>, lmin: Option<i32>, rmax: Option<i32>)
    requires
        lmin is None <==> l.is_empty(),
        lmin matches Some(m) ==> is_least(l, m as int),
        rmax is None <==> r.is_empty(),
        rmax matches Some(m) ==> is_greatest(r, m as int),
        !(lmin matches Some(a) && rmax matches Some(b) && a <= b),
    ensures
        !le_satisfiable(l, r),
{
    reveal(le_satisfiable);
    if le_satisfiable(l, r) {
        let (a, b) = choose|a: int, b: int| l.contains(a) && r.contains(b) && a <= b;
        assert(!l.is_empty() && !r.is_empty()) by {
            assert(l.contains(a));
            assert(r.contains(b));
        }
        match (lmin, rmax) {
            (Some(x), Some(y)) => {
                assert(x <= a && b <= y);
            },
            _ => {},
        }
    }
}

/// With `lmin <= rmax` the narrowed domains are the bound cuts, both non-empty, and
/// they keep `lmin` and `rmax` as their extreme values.
proof fn lemma_le_result(l: Set<int>, r: Set<int>, lmin: int, rmax: int)
    requires
        is_least(l, lmin),
        is_greatest(r, rmax),
        lmin <= rmax,
    ensures
        le_satisfiable(l, r),
        at_most(l, rmax) == le_left(l, r),
        at_least(r, lmin) == le_right(l, r),
        is_least(le_left(l, r), lmin),
        is_greatest(le_right(l, r), rmax),
        le_left(l, r).subset_of(l),
        le_right(l, r).subset_of(r),
        !le_left(l, r).is_empty(),
        !le_right(l, r).is_empty(),
        narrowed_status(l, r, le_left(l, r), le_right(l, r)) != PropagationStatus::Failure,
{
    reveal(le_satisfiable);
    reveal(le_left);
    reveal(le_right);
    assert(l.contains(lmin) && r.contains(rmax));
    lemma_le_left_bound(l, r, rmax);
    lemma_le_right_bound(l, r, lmin);
    assert(le_left(l, r).contains(lmin));
    assert(le_right(l, r).contains(rmax));
}

/// On one variable the relation keeps the whole domain.
proof fn lemma_le_same(l: Set<int>)
    ensures
        le_left(l, l) == l,
        le_right(l, l) == l,
{
    reveal(le_left);
    reveal(le_right);
    assert forall|a: int| le_left(l, l).contains(a) <==> l.contains(a) by {
        if l.contains(a) {
            assert(has_ge(l, a)) by {
                assert(l.contains(a) && a <= a);
            }
        }
    }
    assert forall|a: int| le_right(l, l).contains(a) <==> l.contains(a) by {
        if l.contains(a) {
            assert(has_le(l, a)) by {
                assert(l.contains(a) && a <= a);
            }
        }
    }
    assert(le_left(l, l) =~= l);
    assert(le_right(l, l) =~= l);
}

/// A singleton domain's value is its least element.
pub proof fn lemma_fixed_least(s: Set<int>, m: int, v: int)
    requires
        is_least(s, m),
        s == set![v],
    ensures
        v == m,
{
    assert(s.contains(m));
}

/// A singleton domain's value is its greatest element.
pub proof fn lemma_fixed_greatest(s: Set<int>, m: int, v: int)
    requires
        is_greatest(s, m),
        s == set![v],
    ensures
        v == m,
{
    assert(s.contains(m));
}

/// Propagates `left <= right` using bound consistency.
pub struct LessEqualPropagator {
    /// The variable on the smaller side.
    pub left: VariableId,
    /// The variable on the larger side.
    pub right: VariableId,
}

impl LessEqualPropagator {
    /// Creates a propagator for `left <= right`.
    pub fn new(left: VariableId, right: VariableId) -> (p: Self)
        ensures
            p.left == left,
            p.right == right,
    {
        LessEqualPropagator { left, right }
    }

    /// The variables whose domains this propagator reads.
    pub fn watched_variables(&self) -> (w: Vec<VariableId>)
        ensures
            w@ == seq![self.left, self.right],
    {
        let w = vec![self.left, self.right];
        proof {
            assert(w@ =~= seq![self.left, self.right]);
        }
        w
    }

    /// Narrows both domains to the values that take part in some pair `a <= b`; fails,
    /// leaving the store as it was, when there is no such pair.
    pub fn propagate(&mut self, store: &mut DomainStore) -> (status: PropagationStatus)
        requires
            old(self).left.index < old(store)@.len(),
            old(self).right.index < old(store)@.len(),
        ensures
            *final(self) == *old(self),
            ({
                let l = old(store)@[old(self).left.index as int];
                let r = old(store)@[old(self).right.index as int];
                if le_satisfiable(l, r) {
                    &&& final(store)@ == old(store)@.update(old(self).left.index as int, le_left(l, r)).update(
                        old(self).right.index as int,
                        le_right(l, r),
                    )
                    &&& status == narrowed_status(l, r, le_left(l, r), le_right(l, r))
                    &&& status != PropagationStatus::Failure
                } else {
                    &&& final(store)@ == old(store)@
                    &&& status == PropagationStatus::Failure
                }
            }),
    {
        let left = self.left;
        let right = self.right;
        let ghost li = left.index as int;
        let ghost ri = right.index as int;
        let ghost s0 = store@;
        let ghost l = store@[li];
        let ghost r = store@[ri];
        let lmin0 = store.min(left);
        let rmax0 = store.max(right);
        let proceed = match (lmin0, rmax0) {
            (Some(a), Some(b)) => a <= b,
            _ => false,
        };
        if !proceed {
            proof {
                lemma_le_unsat(l, r, lmin0, rmax0);
            }
            return PropagationStatus::Failure;
        }
        let lmin = match lmin0 {
            Some(a) => a,
            None => 0,
        };
        let rmax = match rmax0 {
            Some(b) => b,
            None => 0,
        };
        let ghost nl = le_left(l, r);
        let ghost nr = le_right(l, r);
        proof {
            lemma_le_result(l, r, lmin as int, rmax as int);
        }
        if left.index == right.index {
            proof {
                lemma_le_same(l);
                assert(s0.update(li, nl).update(ri, nr) =~= s0);
            }
            return PropagationStatus::OkNoChange;
        }
        let changed1 = store.remove_above(left, rmax);
        let lmin1 = store.min(left);
        let low = match lmin1 {
            Some(a) => a,
            None => lmin,
        };
        let changed2 = store.remove_below(right, low);
        let changed = changed1 || changed2;
        proof {
            assert(store@ == s0.update(li, nl).update(ri, nr));
        }
        if let Some(v) = store.fixed_value(left) {
            proof {
                lemma_fixed_least(nl, lmin as int, v as int);
                assert(at_least(nr, v as int) =~= nr);
            }
            store.remove_below(right, v);
        }
        if let Some(w) = store.fixed_value(right) {
            proof {
                lemma_fixed_greatest(nr, rmax as int, w as int);
                assert(at_most(nl, w as int) =~= nl);
            }
            store.remove_above(left, w);
        }
        proof {
            assert(store@ =~= s0.update(li, nl).update(ri, nr));
        }
        if store.is_empty(left) || store.is_empty(right) {
            PropagationStatus::Failure
        } else if changed {
            PropagationStatus::OkChanged
        } else {
            PropagationStatus::OkNoChange
        }
    }
}

/// No pair `a <= b` of the two domains is lost: both values stay, and the constraint
/// counts as satisfiable.
pub proof fn law_less_equal_keeps_pairs(l: Set<int>, r: Set<int>, a: int, b: int)
    requires
        l.contains(a),
        r.contains(b),
        a <= b,
    ensures
        le_left(l, r).contains(a),
        le_right(l, r).contains(b),
        le_satisfiable(l, r),
{
    reveal(le_left);
    reveal(le_right);
    reveal(le_satisfiable);
    assert(has_ge(r, a));
    assert(has_le(l, b));
}

/// Every value that stays takes part in a pair `a <= b` of the original domains.
pub proof fn law_less_equal_supported(l: Set<int>, r: Set<int>, x: int)
    ensures
        le_left(l, r).contains(x) ==> l.contains(x) && exists|b: int| r.contains(b) && x <= b,
        le_right(l, r).contains(x) ==> r.contains(x) && exists|a: int| l.contains(a) && a <= x,
{
    reveal(le_left);
    reveal(le_right);
}

} // verus!
