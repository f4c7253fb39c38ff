//! Bound-consistent propagation of `left == right`.
use vstd::prelude::*;

use crate::domain::{
    between, greatest, is_greatest, is_least, lemma_greatest_is, lemma_least_is, lemma_narrow_step,
    least, narrows, DomainStore, PropagationStatus, VariableId,
};
use crate::less_than::is_singleton;
use crate::not_equal_offset::pair_status;
use crate::solutions::{assignment_in, keeps};

verus! {

/// The members of `s` within the smallest and largest member of `t`; all of `s` when
/// `t` is empty.
pub open spec fn within_hull(s: Set<int>, t: Set<int>) -> Set<int> {
    if t.is_empty() {
        s
    } else {
        between(s, least(t), greatest(t))
    }
}

/// Cuts the domain at `target` to the bounds of the domain at `source`.
pub open spec fn cut_by(s: Seq<Set<int>>, source: int, target: int) -> Seq<Set<int>> {
    s.update(target, within_hull(s[target], s[source]))
}

/// Cuts the domain at `target` to the value of the domain at `source` when that one
/// holds a single value.
pub open spec fn cut_if_fixed(s: Seq<Set<int>>, source: int, target: int) -> Seq<Set<int>> {
    if is_singleton(s[source]) {
        cut_by(s, source, target)
    } else {
        s
    }
}

/// Store after one pass of `left == right`: a fixed side pins the other (left first),
/// then each side is cut to the bounds of the other (right first).
pub open spec fn equality_result(s: Seq<Set<int>>, li: int, ri: int) -> Seq<Set<int>> {
    cut_by(cut_by(cut_if_fixed(cut_if_fixed(s, li, ri), ri, li), li, ri), ri, li)
}

/// Cuts `target` to the bounds of `source`, as read before the cut.
fn cut_by_source(store: &mut DomainStore, source: VariableId, target: VariableId) -> (changed: bool)
    requires
        source.index < old(store)@.len(),
        target.index < old(store)@.len(),
    ensures
        final(store)@ == cut_by(old(store)@, source.index as int, target.index as int),
        changed == (final(store)@ != old(store)@),
        narrows(old(store)@, final(store)@),
{
    let ghost s0 = store@;
    let mn = store.min(source);
    let mx = store.max(source);
    match (mn, mx) {
        (Some(lo), Some(hi)) => {
            proof {
                lemma_least_is(s0[source.index as int], lo as int);
                lemma_greatest_is(s0[source.index as int], hi as int);
            }
            store.restrict(target, lo, hi)
        },
        _ => {
            proof {
                assert(cut_by(s0, source.index as int, target.index as int) =~= s0);
                assert(narrows(s0, s0));
            }
            false
        },
    }
}

/// Cuts `target` to the value of `source` when `source` is fixed.
fn cut_if_source_fixed(store: &mut DomainStore, source: VariableId, target: VariableId) -> (changed: bool)
    requires
        source.index < old(store)@.len(),
        target.index < old(store)@.len(),
    ensures
        final(store)@ == cut_if_fixed(old(store)@, source.index as int, target.index as int),
        changed == (final(store)@ != old(store)@),
        narrows(old(store)@, final(store)@),
{
    let ghost s0 = store@;
    if let Some(v) = store.fixed_value(source) {
        proof {
            let s = s0[source.index as int];
            assert(is_singleton(s));
            assert(is_least(s, v as int) && is_greatest(s, v as int));
            lemma_least_is(s, v as int);
            lemma_greatest_is(s, v as int);
        }
        store.restrict(target, v, v)
    } else {
        proof {
            assert(!is_singleton(s0[source.index as int]));
            assert(narrows(s0, s0));
        }
        false
    }
}

/// One pass of `left == right`; returns whether a domain was narrowed.
pub fn propagate_equal(store: &mut DomainStore, left: VariableId, right: VariableId) -> (changed: bool)
    requires
        left.index < old(store)@.len(),
        right.index < old(store)@.len(),
    ensures
        final(store)@ == equality_result(old(store)@, left.index as int, right.index as int),
        changed == (final(store)@ != old(store)@),
        narrows(old(store)@, final(store)@),
{
    let ghost s0 = store@;
    proof {
        assert(narrows(s0, s0));
    }
    let c1 = cut_if_source_fixed(store, left, right);
    let ghost s1 = store@;
    let c2 = cut_if_source_fixed(store, right, left);
    let ghost s2 = store@;
    proof {
        lemma_narrow_step(s0, s1, s2, c1, c2);
    }
    let c3 = cut_by_source(store, left, right);
    let ghost s3 = store@;
    proof {
        lemma_narrow_step(s0, s2, s3, c1 || c2, c3);
    }
    let c4 = cut_by_source(store, right, left);
    proof {
        lemma_narrow_step(s0, s3, store@, c1 || c2 || c3, c4);
    }
    c1 || c2 || c3 || c4
}

/// Propagates `left == right` using bound consistency.
pub struct EqualityPropagator {
    /// One side of the equality.
    pub left: VariableId,
    /// The other side of the equality.
    pub right: VariableId,
}

impl EqualityPropagator {
    /// Creates an equality propagator for `left == right`.
    pub fn new(left: VariableId, right: VariableId) -> (p: Self)
        ensures
            p.left == left,
            p.right == right,
    {
        EqualityPropagator { left, right }
    }

    /// The variables whose domains this propagator reads.
    pub fn watched_variables(&self) -> (w: Vec<VariableId>)
        ensures
            w@ == seq![self.left, self.right],
    {
        let w = vec![self.left, self.right];
        proof {
            assert(w@ =~= seq![self.left, self.right]);
        }
        w
    }

    /// One pass of [`propagate_equal`]; fails when a domain ends up empty.
    pub fn propagate(&mut self, store: &mut DomainStore) -> (status: PropagationStatus)
        requires
            old(self).left.index < old(store)@.len(),
            old(self).right.index < old(store)@.len(),
        ensures
            *final(self) == *old(self),
            final(store)@ == equality_result(old(store)@, old(self).left.index as int, old(self).right.index as int),
            status == pair_status(old(store)@, final(store)@, old(self).left.index as int, old(self).right.index as int),
    {
        let changed = propagate_equal(store, self.left, self.right);
        if store.is_empty(self.left) || store.is_empty(self.right) {
            PropagationStatus::Failure
        } else if changed {
            PropagationStatus::OkChanged
        } else {
            PropagationStatus::OkNoChange
        }
    }
}

/// The constraint `left == right` on the variables at `li` and `ri`.
pub open spec fn eq_holds(li: int, ri: int) -> spec_fn(Seq<int>) -> bool {
    |sigma: Seq<int>| sigma[li] == sigma[ri]
}

/// A cut of `target` to the bounds of `source` keeps an assignment that gives both the
/// same value.
proof fn lemma_cut_keeps(s: Seq<Set<int>>, source: int, target: int, sigma: Seq<int>)
    requires
        0 <= source < s.len(),
        0 <= target < s.len(),
        assignment_in(s, sigma),
        sigma[source] == sigma[target],
        s[source].finite(),
    ensures
        assignment_in(cut_by(s, source, target), sigma),
        assignment_in(cut_if_fixed(s, source, target), sigma),
{
    let t = cut_by(s, source, target);
    assert(s[source].contains(sigma[source]));
    assert(s[target].contains(sigma[target]));
    if !s[source].is_empty() {
        let lo = least(s[source]);
        let hi = greatest(s[source]);
        assert(is_least(s[source], lo)) by {
            crate::domain::lemma_least_exists(s[source]);
        }
        assert(is_greatest(s[source], hi)) by {
            crate::domain::lemma_greatest_exists(s[source]);
        }
    }
    assert forall|i: int| 0 <= i < s.len() implies #[trigger] t[i].contains(sigma[i]) by {
        assert(s[i].contains(sigma[i]));
    }
}

/// Cuts keep every domain finite.
proof fn lemma_cut_finite(s: Seq<Set<int>>, source: int, target: int)
    requires
        0 <= source < s.len(),
        0 <= target < s.len(),
        forall|i: int| 0 <= i < s.len() ==> (#[trigger] s[i]).finite(),
    ensures
        forall|i: int| 0 <= i < s.len() ==> (#[trigger] cut_by(s, source, target)[i]).finite(),
        forall|i: int| 0 <= i < s.len() ==> (#[trigger] cut_if_fixed(s, source, target)[i]).finite(),
{
    let d = within_hull(s[target], s[source]);
    assert(d.subset_of(s[target]));
    vstd::set_lib::lemma_set_subset_finite(s[target], d);
}

/// Cutting `target` to the bounds of `source` keeps `w` at `target` when `source`
/// holds `w` too, and changes nothing else.
pub proof fn lemma_cut_by_keeps(s: Seq<Set<int>>, source: int, target: int, w: int)
    requires
        0 <= source < s.len() && 0 <= target < s.len(),
        s[source].finite(),
        s[source].contains(w),
        s[target].contains(w),
    ensures
        cut_by(s, source, target)[target].contains(w),
        forall|k: int| 0 <= k < s.len() && k != target ==> #[trigger] cut_by(s, source, target)[k] == s[k],
        forall|k: int| 0 <= k < s.len() ==> #[trigger] cut_by(s, source, target)[k].subset_of(s[k]),
{
    crate::domain::lemma_member_in_bounds(s[source], w);
}

/// A pass of `left == right` on distinct variables with finite domains keeps every
/// value that both domains share.
pub proof fn law_equality_keeps_pairs(s: Seq<Set<int>>, li: int, ri: int, w: int)
    requires
        0 <= li < s.len() && 0 <= ri < s.len() && li != ri,
        s[li].finite() && s[ri].finite(),
        s[li].contains(w) && s[ri].contains(w),
    ensures
        equality_result(s, li, ri)[li].contains(w),
        equality_result(s, li, ri)[ri].contains(w),
        forall|k: int| 0 <= k < s.len() && k != li && k != ri ==> #[trigger] equality_result(s, li, ri)[k] == s[k],
        equality_result(s, li, ri)[li].finite() && equality_result(s, li, ri)[ri].finite(),
{
    let s1 = cut_if_fixed(s, li, ri);
    if is_singleton(s[li]) {
        lemma_cut_by_keeps(s, li, ri, w);
    }
    vstd::set_lib::lemma_len_subset(s1[ri], s[ri]);
    let s2 = cut_if_fixed(s1, ri, li);
    if is_singleton(s1[ri]) {
        lemma_cut_by_keeps(s1, ri, li, w);
    }
    vstd::set_lib::lemma_len_subset(s2[li], s1[li]);
    lemma_cut_by_keeps(s2, li, ri, w);
    let s3 = cut_by(s2, li, ri);
    vstd::set_lib::lemma_len_subset(s3[ri], s2[ri]);
    lemma_cut_by_keeps(s3, ri, li, w);
    let s4 = cut_by(s3, ri, li);
    vstd::set_lib::lemma_len_subset(s4[li], s3[li]);
}

/// One pass of `left == right` keeps every solution.
pub proof fn law_equality_keeps_solutions(s: Seq<Set<int>>, li: int, ri: int)
    requires
        0 <= li < s.len(),
        0 <= ri < s.len(),
        forall|i: int| 0 <= i < s.len() ==> (#[trigger] s[i]).finite(),
    ensures
        keeps(s, equality_result(s, li, ri), eq_holds(li, ri)),
{
    let c = eq_holds(li, ri);
    assert forall|sigma: Seq<int>| assignment_in(s, sigma) && #[trigger] c(sigma) implies assignment_in(
        equality_result(s, li, ri),
        sigma,
    ) by {
        let s1 = cut_if_fixed(s, li, ri);
        lemma_cut_keeps(s, li, ri, sigma);
        lemma_cut_finite(s, li, ri);
        let s2 = cut_if_fixed(s1, ri, li);
        lemma_cut_keeps(s1, ri, li, sigma);
        lemma_cut_finite(s1, ri, li);
        let s3 = cut_by(s2, li, ri);
        lemma_cut_keeps(s2, li, ri, sigma);
        lemma_cut_finite(s2, li, ri);
        lemma_cut_keeps(s3, ri, li, sigma);
    }
}

} // verus!
