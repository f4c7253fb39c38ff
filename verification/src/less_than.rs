//! Bound-consistent propagation of `left < right`.
use vstd::prelude::*;

use crate::domain::{
    at_least, at_most, greatest, is_greatest, is_least, lemma_greatest_is, lemma_least_is, least, DomainStore,
    PropagationStatus, VariableId,
};
use crate::less_equal::{lemma_fixed_greatest, lemma_fixed_least, narrowed_status};

verus! {

/// Some member of `r` is greater than `a`.
pub open spec fn has_gt(r: Set<int>, a: int) -> bool {
    exists|b: int| r.contains(b) && a < b
}

/// Some member of `l` is less than `b`.
pub open spec fn has_lt(l: Set<int>, b: int) -> bool {
    exists|a: int| l.contains(a) && a < b
}

/// The values of `l` below some value of `r`.
#[verifier::opaque]
pub open spec fn lt_left(l: Set<int>, r: Set<int>) -> Set<int> {
    l.filter(|a: int| has_gt(r, a))
}

/// The values of `r` above some value of `l`.
#[verifier::opaque]
pub open spec fn lt_right(l: Set<int>, r: Set<int>) -> Set<int> {
    r.filter(|b: int| has_lt(l, b))
}

/// Some pair of `l` and `r` satisfies `a < b`.
#[verifier::opaque]
pub open spec fn lt_satisfiable(l: Set<int>, r: Set<int>) -> bool {
    exists|a: int, b: int| l.contains(a) && r.contains(b) && a < b
}

/// `s` holds exactly one value.
pub open spec fn is_singleton(s: Set<int>) -> bool {
    exists|v: int| s == set![v]
}

/// What one pass leaves of the domain `l` when both sides are the same variable: the
/// values strictly between its extremes, or nothing when only one such value is left.
pub open spec fn lt_same(l: Set<int>) -> Set<int> {
    let inner = l.filter(|v: int| least(l) < v && v < greatest(l));
    if is_singleton(inner) {
        Set::empty()
    } else {
        inner
    }
}

pub proof fn lemma_lt_left_bound(l: Set<int>, r: Set<int>, m: int)
    requires
        is_greatest(r, m),
    ensures
        at_most(l, m - 1) == lt_left(l, r),
{
    reveal(lt_left);
    assert forall|a: int| #[trigger] l.contains(a) implies (a <= m - 1 <==> has_gt(r, a)) by {
        if has_gt(r, a) {
            let b = choose|b: int| r.contains(b) && a < b;
            assert(b <= m);
        }
    }
    assert(at_most(l, m - 1) =~= lt_left(l, r));
}

pub proof fn lemma_lt_right_bound(l: Set<int>, r: Set<int>, m: int)
    requires
        is_least(l, m),
    ensures
        at_least(r, m + 1) == lt_right(l, r),
{
    reveal(lt_right);
    assert forall|b: int| #[trigger] r.contains(b) implies (m + 1 <= b <==> has_lt(l, b)) by {
        if has_lt(l, b) {
            let a = choose|a: int| l.contains(a) && a < b;
            assert(m <= a);
        }
    }
    assert(at_least(r, m + 1) =~= lt_right(l, r));
}

/// Without a pair `a < b` the bounds already show it.
proof fn lemma_lt_unsat(l: Set<int>, r: Set<int>, lmin: Option<i32>, rmax: Option<i32>)
    requires
        lmin is None <==> l.is_empty(),
        lmin matches Some(m) ==> is_least(l, m as int),
        rmax is None <==> r.is_empty(),
        rmax matches Some(m) ==> is_greatest(r, m as int),
        !(lmin matches Some(a) && rmax matches Some(b) && a < b),
    ensures
        !lt_satisfiable(l, r),
{
    reveal(lt_satisfiable);
    if lt_satisfiable(l, r) {
        let (a, b) = choose|a: int, b: int| l.contains(a) && r.contains(b) && a < b;
        assert(!l.is_empty() && !r.is_empty()) by {
            assert(l.contains(a));
            assert(r.contains(b));
        }
        match (lmin, rmax) {
            (Some(x), Some(y)) => {
                assert(x <= a && b <= y);
            },
            _ => {},
        }
    }
}

/// With `lmin < rmax` the narrowed domains are the bound cuts, both non-empty.
proof fn lemma_lt_result(l: Set<int>, r: Set<int>, lmin: int, rmax: int)
    requires
        is_least(l, lmin),
        is_greatest(r, rmax),
        lmin < rmax,
    ensures
        lt_satisfiable(l, r),
        at_most(l, rmax - 1) == lt_left(l, r),
        at_least(r, lmin + 1) == lt_right(l, r),
        is_least(lt_left(l, r), lmin),
        is_greatest(lt_right(l, r), rmax),
        !lt_left(l, r).is_empty(),
        !lt_right(l, r).is_empty(),
        narrowed_status(l, r, lt_left(l, r), lt_right(l, r)) != PropagationStatus::Failure,
{
    reveal(lt_satisfiable);
    assert(l.contains(lmin) && r.contains(rmax));
    lemma_lt_left_bound(l, r, rmax);
    lemma_lt_right_bound(l, r, lmin);
    assert(lt_left(l, r).contains(lmin));
    assert(lt_right(l, r).contains(rmax));
}

/// Propagates `left < right` using bound consistency.
pub struct LessThanPropagator {
    /// The variable on the smaller side.
    pub left: VariableId,
    /// The variable on the larger side.
    pub right: VariableId,
}

impl LessThanPropagator {
    /// Creates a propagator for `left < right`.
    pub fn new(left: VariableId, right: VariableId) -> (p: Self)
        ensures
            p.left == left,
            p.right == right,
    {
        LessThanPropagator { left, right }
    }

    /// The variables whose domains this propagator reads.
    pub fn watched_variables(&self) -> (w: Vec<VariableId>)
        ensures
            w@ == seq![self.left, self.right],
    {
        let w = vec![self.left, self.right];
        proof {
            assert(w@ =~= seq![self.left, self.right]);
        }
        w
    }

    /// Narrows both domains to the values that take part in some pair `a < b`; fails,
    /// leaving the store as it was, when there is no such pair. When both sides are one
    /// variable, a pass strips its two extreme values, and a single survivor too.
    pub fn propagate(&mut self, store: &mut DomainStore) -> (status: PropagationStatus)
        requires
            old(self).left.index < old(store)@.len(),
            old(self).right.index < old(store)@.len(),
        ensures
            *final(self) == *old(self),
            ({
                let li = old(self).left.index as int;
                let ri = old(self).right.index as int;
                let l = old(store)@[li];
                let r = old(store)@[ri];
                if !lt_satisfiable(l, r) {
                    &&& final(store)@ == old(store)@
                    &&& status == PropagationStatus::Failure
                } else if li != ri {
                    &&& final(store)@ == old(store)@.update(li, lt_left(l, r)).update(ri, lt_right(l, r))
                    &&& status == narrowed_status(l, r, lt_left(l, r), lt_right(l, r))
                    &&& status != PropagationStatus::Failure
                } else {
                    &&& final(store)@ == old(store)@.update(li, lt_same(l))
                    &&& status == (if lt_same(l).is_empty() {
                        PropagationStatus::Failure
                    } else {
                        PropagationStatus::OkChanged
                    })
                }
            }),
    {
        let left = self.left;
        let right = self.right;
        let ghost li = left.index as int;
        let ghost ri = right.index as int;
        let ghost s0 = store@;
        let ghost l = store@[li];
        let ghost r = store@[ri];
        let lmin0 = store.min(left);
        let rmax0 = store.max(right);
        let proceed = match (lmin0, rmax0) {
            (Some(a), Some(b)) => a < b,
            _ => false,
        };
        if !proceed {
            proof {
                lemma_lt_unsat(l, r, lmin0, rmax0);
            }
            return PropagationStatus::Failure;
        }
        let lmin = match lmin0 {
            Some(a) => a,
            None => 0,
        };
        let rmax = match rmax0 {
            Some(b) => b,
            None => 1,
        };
        let ghost nl = lt_left(l, r);
        let ghost nr = lt_right(l, r);
        proof {
            lemma_lt_result(l, r, lmin as int, rmax as int);
        }
        if left.index == right.index {
            return self.propagate_same(store, lmin, rmax);
        }
        let changed1 = store.remove_above(left, rmax - 1);
        let lmin1 = store.min(left);
        let low = match lmin1 {
            Some(a) => a,
            None => lmin,
        };
        let changed2 = store.remove_below(right, low + 1);
        let changed = changed1 || changed2;
        proof {
            assert(store@ == s0.update(li, nl).update(ri, nr));
        }
        if let Some(v) = store.fixed_value(left) {
            proof {
                lemma_fixed_least(nl, lmin as int, v as int);
                assert(at_least(nr, v + 1) =~= nr);
            }
            store.remove_below(right, v + 1);
        }
        if let Some(w) = store.fixed_value(right) {
            proof {
                lemma_fixed_greatest(nr, rmax as int, w as int);
                assert(at_most(nl, w - 1) =~= nl);
            }
            store.remove_above(left, w - 1);
        }
        proof {
            assert(store@ =~= s0.update(li, nl).update(ri, nr));
        }
        if store.is_empty(left) || store.is_empty(right) {
            PropagationStatus::Failure
        } else if changed {
            PropagationStatus::OkChanged
        } else {
            PropagationStatus::OkNoChange
        }
    }

    /// The same passes when both sides are one variable with extremes `lmin < rmax`.
    fn propagate_same(&self, store: &mut DomainStore, lmin: i32, rmax: i32) -> (status: PropagationStatus)
        requires
            self.left == self.right,
            self.left.index < old(store)@.len(),
            is_least(old(store)@[self.left.index as int], lmin as int),
            is_greatest(old(store)@[self.left.index as int], rmax as int),
            lmin < rmax,
        ensures
            final(store)@ == old(store)@.update(self.left.index as int, lt_same(old(store)@[self.left.index as int])),
            status == (if lt_same(old(store)@[self.left.index as int]).is_empty() {
                PropagationStatus::Failure
            } else {
                PropagationStatus::OkChanged
            }),
    {
        let var = self.left;
        let ghost xi = var.index as int;
        let ghost s0 = store@;
        let ghost l = store@[xi];
        let ghost inner = l.filter(|v: int| least(l) < v && v < greatest(l));
        proof {
            lemma_least_is(l, lmin as int);
            lemma_greatest_is(l, rmax as int);
        }
        store.remove_above(var, rmax - 1);
        proof {
            assert(store@[xi].contains(lmin as int));
        }
        let low = match store.min(var) {
            Some(a) => a,
            None => lmin,
        };
        proof {
            assert(low == lmin);
        }
        store.remove_below(var, low + 1);
        proof {
            assert(store@[xi] =~= inner);
            assert(store@ =~= s0.update(xi, inner));
        }
        if let Some(v) = store.fixed_value(var) {
            proof {
                assert(inner.contains(v as int));
                assert(is_singleton(inner));
                assert(at_least(inner, v + 1) =~= Set::<int>::empty());
            }
            store.remove_below(var, v + 1);
            proof {
                assert(store@ =~= s0.update(xi, lt_same(l)));
            }
        } else {
            proof {
                assert(!is_singleton(inner));
                assert(store@ =~= s0.update(xi, lt_same(l)));
            }
        }
        let fixed_after = store.fixed_value(var);
        proof {
            assert(fixed_after is None) by {
                if let Some(w) = fixed_after {
                    assert(store@[xi].contains(w as int));
                    assert(is_singleton(store@[xi]));
                }
            }
        }
        if store.is_empty(var) {
            PropagationStatus::Failure
        } else {
            PropagationStatus::OkChanged
        }
    }
}

/// No pair `a < b` of two domains is lost: both values stay, and the constraint counts
/// as satisfiable.
pub proof fn law_less_than_keeps_pairs(l: Set<int>, r: Set<int>, a: int, b: int)
    requires
        l.contains(a),
        r.contains(b),
        a < b,
    ensures
        lt_left(l, r).contains(a),
        lt_right(l, r).contains(b),
        lt_satisfiable(l, r),
{
    reveal(lt_left);
    reveal(lt_right);
    reveal(lt_satisfiable);
    assert(has_gt(r, a));
    assert(has_lt(l, b));
}

/// Every value that stays takes part in a pair `a < b` of the original domains.
pub proof fn law_less_than_supported(l: Set<int>, r: Set<int>, x: int)
    ensures
        lt_left(l, r).contains(x) ==> l.contains(x) && exists|b: int| r.contains(b) && x < b,
        lt_right(l, r).contains(x) ==> r.contains(x) && exists|a: int| l.contains(a) && a < x,
{
    reveal(lt_left);
    reveal(lt_right);
}

} // verus!
