//! Bound-consistent propagation of `c = min(a, b)` and `c = max(a, b)`.
use vstd::prelude::*;

use crate::domain::{
    at_least, at_most, greatest, is_greatest, is_least, least, lemma_greatest_is, lemma_least_is, narrows, DomainStore, PropagationStatus, VariableId};
use crate::int_abs::{lemma_within_subset, within};
use crate::solutions::{
    above_step, assignment_in, assignment_on, below_step, has_solution, has_solution_on, keeps, keeps_on,
    lemma_assignment_narrows, lemma_assignment_on_narrows, lemma_progress_empty, lemma_progress_facts,
    lemma_progress_narrows, lemma_progress_start, progress,
};

verus! {

/// Posts `c = min(a, b)` or `c = max(a, b)` for integers.
#[derive(Clone, Copy, Debug, PartialEq, Eq, Structural)]
pub enum IntMinMaxOp {
    /// The smaller operand.
    Min,
    /// The larger operand.
    Max,
}

/// The smaller of two integers.
pub open spec fn min_of(x: int, y: int) -> int {
    if x <= y { x } else { y }
}

/// The larger of two integers.
pub open spec fn max_of(x: int, y: int) -> int {
    if x >= y { x } else { y }
}

/// The constraint `c = op(a, b)` on the variables at `ai`, `bi` and `ci`.
pub open spec fn minmax_holds(ai: int, bi: int, ci: int, op: IntMinMaxOp) -> spec_fn(Seq<int>) -> bool {
    |sigma: Seq<int>|
        sigma[ci] == (match op {
            IntMinMaxOp::Min => min_of(sigma[ai], sigma[bi]),
            IntMinMaxOp::Max => max_of(sigma[ai], sigma[bi]),
        })
}

/// Bounds of `op(a, b)` for `a` in `[amin, amax]` and `b` in `[bmin, bmax]`.
pub open spec fn minmax_image(op: IntMinMaxOp, amin: int, amax: int, bmin: int, bmax: int) -> (int, int) {
    match op {
        IntMinMaxOp::Min => (min_of(amin, bmin), min_of(amax, bmax)),
        IntMinMaxOp::Max => (max_of(amin, bmin), max_of(amax, bmax)),
    }
}

/// Bound-consistent binary integer min/max.
pub struct IntMinMaxPropagator {
    /// First operand.
    pub a: VariableId,
    /// Second operand.
    pub b: VariableId,
    /// Result.
    pub c: VariableId,
    /// Whether `c` is the minimum or the maximum.
    pub op: IntMinMaxOp,
}

/// Every solution still held by `s` respects the bounds read on `s0`.
proof fn lemma_read_bounds(
    s0: Seq<Set<int>>,
    s: Seq<Set<int>>,
    cons: spec_fn(Seq<int>) -> bool,
    changed: bool,
    w: Set<int>,
    x: int,
    lo: int,
    hi: int,
)
    requires
        progress(s0, s, cons, changed, w),
        0 <= x < s0.len(),
        w.contains(x),
        within(s0[x], lo, hi),
    ensures
        forall|sigma: Seq<int>| assignment_on(s, sigma, w) && #[trigger] cons(sigma) ==> lo <= sigma[x] <= hi,
{
    lemma_progress_narrows(s0, s, cons, changed, w);
    assert forall|sigma: Seq<int>| assignment_on(s, sigma, w) && #[trigger] cons(sigma) implies lo <= sigma[x] <= hi by {
        lemma_assignment_on_narrows(s0, s, sigma, w);
        assert(s0[x].contains(sigma[x]));
    }
}

/// `s` with the domain at `k` cut to its values of at least `b`.
pub open spec fn cut_at_least(s: Seq<Set<int>>, k: int, b: int) -> Seq<Set<int>> {
    s.update(k, at_least(s[k], b))
}

/// `s` with the domain at `k` cut to its values of at most `b`.
pub open spec fn cut_at_most(s: Seq<Set<int>>, k: int, b: int) -> Seq<Set<int>> {
    s.update(k, at_most(s[k], b))
}

/// Store after one propagation of `c = op(a, b)` on `s` with non-empty domains, all
/// bounds read on `s`: `c` cut to the image of the operands' bounds; for `Min` both
/// operands cut to at least `c`'s least value and `c` to at most each operand's greatest
/// (for `Max` the mirror); then, when one operand's bounds make it the result, that
/// operand and `c` cut to each other's bounds ([`sync_equal_result`]).
pub open spec fn minmax_outcome(s: Seq<Set<int>>, ai: int, bi: int, ci: int, op: IntMinMaxOp) -> Seq<Set<int>> {
    let amin = least(s[ai]);
    let amax = greatest(s[ai]);
    let bmin = least(s[bi]);
    let bmax = greatest(s[bi]);
    let cmin = least(s[ci]);
    let cmax = greatest(s[ci]);
    let image = minmax_image(op, amin, amax, bmin, bmax);
    let t0 = cut_at_most(cut_at_least(s, ci, image.0), ci, image.1);
    match op {
        IntMinMaxOp::Min => {
            let t = cut_at_most(cut_at_most(cut_at_least(cut_at_least(t0, ai, cmin), bi, cmin), ci, amax), ci, bmax);
            if amin >= bmax {
                sync_equal_result(t, bi, ci)
            } else if bmin >= amax {
                sync_equal_result(t, ai, ci)
            } else {
                t
            }
        },
        IntMinMaxOp::Max => {
            let t = cut_at_least(cut_at_least(cut_at_most(cut_at_most(t0, ai, cmax), bi, cmax), ci, amin), ci, bmin);
            if amax <= bmin {
                sync_equal_result(t, bi, ci)
            } else if bmax <= amin {
                sync_equal_result(t, ai, ci)
            } else {
                t
            }
        },
    }
}

/// The cuts of one propagation of `c = op(a, b)` read on the final store `f` against the
/// entry store `s`: for `Min` each operand keeps only values of at least `c`'s least entry
/// value (for `Max`, at most `c`'s greatest); when one operand's bounds make it the result,
/// `c` lies within that operand's final bounds and the operand within `c`'s entry bounds.
pub open spec fn minmax_cuts_hold(s: Seq<Set<int>>, f: Seq<Set<int>>, ai: int, bi: int, ci: int, op: IntMinMaxOp) -> bool {
    let amin = least(s[ai]);
    let amax = greatest(s[ai]);
    let bmin = least(s[bi]);
    let bmax = greatest(s[bi]);
    let cmin = least(s[ci]);
    let cmax = greatest(s[ci]);
    let b_forced = match op {
        IntMinMaxOp::Min => amin >= bmax,
        IntMinMaxOp::Max => amax <= bmin,
    };
    let a_forced = !b_forced && match op {
        IntMinMaxOp::Min => bmin >= amax,
        IntMinMaxOp::Max => bmax <= amin,
    };
    &&& match op {
        IntMinMaxOp::Min => within(f[ai], cmin, amax) && within(f[bi], cmin, bmax),
        IntMinMaxOp::Max => within(f[ai], amin, cmax) && within(f[bi], bmin, cmax),
    }
    &&& b_forced ==> within(f[ci], least(f[bi]), greatest(f[bi])) && within(f[bi], cmin, cmax)
    &&& a_forced ==> within(f[ci], least(f[ai]), greatest(f[ai])) && within(f[ai], cmin, cmax)
}

/// What [`sync_equal_result`] keeps: every domain narrows, `l` lies within the bounds of
/// `r` on entry, and `r` within the final bounds of `l`.
proof fn lemma_sync_bounds(s: Seq<Set<int>>, l: int, r: int)
    requires
        0 <= l < s.len(),
        0 <= r < s.len(),
        l != r,
    ensures
        sync_equal_result(s, l, r).len() == s.len(),
        forall|k: int| 0 <= k < s.len() ==> (#[trigger] sync_equal_result(s, l, r)[k]).subset_of(s[k]),
        !s[r].is_empty() ==> within(sync_equal_result(s, l, r)[l], least(s[r]), greatest(s[r])),
        !sync_equal_result(s, l, r)[l].is_empty() ==> within(
            sync_equal_result(s, l, r)[r],
            least(sync_equal_result(s, l, r)[l]),
            greatest(sync_equal_result(s, l, r)[l]),
        ),
{
    let s1 = raise_to_min(s, r, l);
    let s2 = lower_to_max(s1, r, l);
    let s3 = raise_to_min(s2, l, r);
    let s4 = lower_to_max(s3, l, r);
    assert(s1[r] == s[r]);
    assert(s2[r] == s[r]);
    assert(s3[l] == s2[l]);
    assert(s4[l] == s2[l]);
    assert forall|k: int| 0 <= k < s.len() implies (#[trigger] s4[k]).subset_of(s[k]) by {
        assert(s1[k].subset_of(s[k]));
        assert(s2[k].subset_of(s1[k]));
        assert(s3[k].subset_of(s2[k]));
        assert(s4[k].subset_of(s3[k]));
    }
}

/// Reads [`minmax_cuts_hold`] off [`minmax_outcome`] for distinct variables with finite,
/// non-empty domains, whenever no domain of the outcome is empty.
proof fn lemma_minmax_cuts(s: Seq<Set<int>>, ai: int, bi: int, ci: int, op: IntMinMaxOp)
    requires
        0 <= ai < s.len(),
        0 <= bi < s.len(),
        0 <= ci < s.len(),
        ai != bi,
        ai != ci,
        bi != ci,
        s[ai].finite() && !s[ai].is_empty(),
        s[bi].finite() && !s[bi].is_empty(),
        s[ci].finite() && !s[ci].is_empty(),
        !minmax_outcome(s, ai, bi, ci, op)[ai].is_empty(),
        !minmax_outcome(s, ai, bi, ci, op)[bi].is_empty(),
        !minmax_outcome(s, ai, bi, ci, op)[ci].is_empty(),
    ensures
        minmax_cuts_hold(s, minmax_outcome(s, ai, bi, ci, op), ai, bi, ci, op),
{
    let f = minmax_outcome(s, ai, bi, ci, op);
    crate::domain::lemma_least_exists(s[ai]);
    crate::domain::lemma_greatest_exists(s[ai]);
    crate::domain::lemma_least_exists(s[bi]);
    crate::domain::lemma_greatest_exists(s[bi]);
    crate::domain::lemma_least_exists(s[ci]);
    crate::domain::lemma_greatest_exists(s[ci]);
    let amin = least(s[ai]);
    let amax = greatest(s[ai]);
    let bmin = least(s[bi]);
    let bmax = greatest(s[bi]);
    let cmin = least(s[ci]);
    let cmax = greatest(s[ci]);
    let image = minmax_image(op, amin, amax, bmin, bmax);
    let t0 = cut_at_most(cut_at_least(s, ci, image.0), ci, image.1);
    assert(t0[ai] == s[ai] && t0[bi] == s[bi]);
    assert(t0[ci].subset_of(s[ci]));
    let t = match op {
        IntMinMaxOp::Min => cut_at_most(cut_at_most(cut_at_least(cut_at_least(t0, ai, cmin), bi, cmin), ci, amax), ci, bmax),
        IntMinMaxOp::Max => cut_at_least(cut_at_least(cut_at_most(cut_at_most(t0, ai, cmax), bi, cmax), ci, amin), ci, bmin),
    };
    assert(t.len() == s.len());
    assert forall|k: int| 0 <= k < s.len() implies (#[trigger] t[k]).subset_of(s[k]) by {}
    match op {
        IntMinMaxOp::Min => {
            assert(within(t[ai], cmin, amax));
            assert(within(t[bi], cmin, bmax));
        },
        IntMinMaxOp::Max => {
            assert(within(t[ai], amin, cmax));
            assert(within(t[bi], bmin, cmax));
        },
    }
    lemma_sync_bounds(t, bi, ci);
    lemma_sync_bounds(t, ai, ci);
    let b_forced = match op {
        IntMinMaxOp::Min => amin >= bmax,
        IntMinMaxOp::Max => amax <= bmin,
    };
    let a_forced = !b_forced && match op {
        IntMinMaxOp::Min => bmin >= amax,
        IntMinMaxOp::Max => bmax <= amin,
    };
    if b_forced {
        assert(f == sync_equal_result(t, bi, ci));
        lemma_within_subset(f[ai], t[ai], if op == IntMinMaxOp::Min { cmin } else { amin }, if op == IntMinMaxOp::Min { amax } else { cmax });
        lemma_within_subset(f[bi], t[bi], if op == IntMinMaxOp::Min { cmin } else { bmin }, if op == IntMinMaxOp::Min { bmax } else { cmax });
        assert(!t[ci].is_empty()) by {
            let v = f[ci].choose();
            assert(f[ci].contains(v));
            assert(t[ci].contains(v));
        }
        vstd::set_lib::lemma_set_subset_finite(s[ci], t[ci]);
        crate::domain::lemma_least_exists(t[ci]);
        crate::domain::lemma_greatest_exists(t[ci]);
        assert(s[ci].contains(least(t[ci])) && s[ci].contains(greatest(t[ci])));
        assert(within(f[bi], cmin, cmax));
    } else if a_forced {
        assert(f == sync_equal_result(t, ai, ci));
        lemma_within_subset(f[ai], t[ai], if op == IntMinMaxOp::Min { cmin } else { amin }, if op == IntMinMaxOp::Min { amax } else { cmax });
        lemma_within_subset(f[bi], t[bi], if op == IntMinMaxOp::Min { cmin } else { bmin }, if op == IntMinMaxOp::Min { bmax } else { cmax });
        assert(!t[ci].is_empty()) by {
            let v = f[ci].choose();
            assert(f[ci].contains(v));
            assert(t[ci].contains(v));
        }
        vstd::set_lib::lemma_set_subset_finite(s[ci], t[ci]);
        crate::domain::lemma_least_exists(t[ci]);
        crate::domain::lemma_greatest_exists(t[ci]);
        assert(s[ci].contains(least(t[ci])) && s[ci].contains(greatest(t[ci])));
        assert(within(f[ai], cmin, cmax));
    } else {
        assert(f == t);
    }
}

/// Store after `target` loses the values below the smallest of `source`, if any.
pub open spec fn raise_to_min(s: Seq<Set<int>>, source: int, target: int) -> Seq<Set<int>> {
    if s[source].is_empty() { s } else { s.update(target, at_least(s[target], least(s[source]))) }
}

/// Store after `target` loses the values above the largest of `source`, if any.
pub open spec fn lower_to_max(s: Seq<Set<int>>, source: int, target: int) -> Seq<Set<int>> {
    if s[source].is_empty() { s } else { s.update(target, at_most(s[target], greatest(s[source]))) }
}

/// Store after `left` is cut to the bounds of `right`, then `right` to those of `left`,
/// lower bound first each time.
pub open spec fn sync_equal_result(s: Seq<Set<int>>, l: int, r: int) -> Seq<Set<int>> {
    lower_to_max(raise_to_min(lower_to_max(raise_to_min(s, r, l), r, l), l, r), l, r)
}

/// Cuts `left` and `right` to each other's bounds when every solution gives them the
/// same value; returns the updated "changed" flag.
fn sync_equal(
    store: &mut DomainStore,
    left: VariableId,
    right: VariableId,
    Ghost(s0): Ghost<Seq<Set<int>>>,
    Ghost(cons): Ghost<spec_fn(Seq<int>) -> bool>,
    Ghost(w): Ghost<Set<int>>,
    changed: bool,
) -> (r: bool)
    requires
        left.index < old(store)@.len(),
        right.index < old(store)@.len(),
        w.contains(left.index as int),
        w.contains(right.index as int),
        progress(s0, old(store)@, cons, changed, w),
        forall|sigma: Seq<int>|
            assignment_on(s0, sigma, w) && #[trigger] cons(sigma) ==> sigma[left.index as int] == sigma[right.index as int],
    ensures
        progress(s0, final(store)@, cons, r, w),
        narrows(old(store)@, final(store)@),
        final(store)@ == sync_equal_result(old(store)@, left.index as int, right.index as int),
{
    let ghost li = left.index as int;
    let ghost ri = right.index as int;
    let ghost entry = store@;
    proof {
        assert(narrows(entry, entry));
    }
    let mut changed = changed;
    let ghost t0 = store@;
    if let Some(rmin) = store.min(right) {
        proof {
            lemma_least_is(t0[ri], rmin as int);
            lemma_progress_facts(s0, store@, cons, changed, w);
            let s = store@;
            assert forall|sigma: Seq<int>| assignment_on(s, sigma, w) && #[trigger] cons(sigma) implies rmin <= sigma[li] by {
                lemma_assignment_on_narrows(s0, s, sigma, w);
                assert(s[ri].contains(sigma[ri]));
            }
        }
        let ghost p = store@;
        changed = below_step(store, left, rmin, Ghost(s0), Ghost(cons), Ghost(w), changed);
        proof {
            crate::domain::lemma_narrows_trans(entry, p, store@);
        }
    }
    proof {
        assert(store@ == raise_to_min(t0, ri, li));
    }
    let ghost t1 = store@;
    if let Some(rmax) = store.max(right) {
        proof {
            lemma_greatest_is(t1[ri], rmax as int);
            lemma_progress_facts(s0, store@, cons, changed, w);
            let s = store@;
            assert forall|sigma: Seq<int>| assignment_on(s, sigma, w) && #[trigger] cons(sigma) implies sigma[li] <= rmax by {
                lemma_assignment_on_narrows(s0, s, sigma, w);
                assert(s[ri].contains(sigma[ri]));
            }
        }
        let ghost p = store@;
        changed = above_step(store, left, rmax, Ghost(s0), Ghost(cons), Ghost(w), changed);
        proof {
            crate::domain::lemma_narrows_trans(entry, p, store@);
        }
    }
    proof {
        assert(store@ == lower_to_max(t1, ri, li));
    }
    let ghost t2 = store@;
    if let Some(lmin) = store.min(left) {
        proof {
            lemma_least_is(t2[li], lmin as int);
            lemma_progress_facts(s0, store@, cons, changed, w);
            let s = store@;
            assert forall|sigma: Seq<int>| assignment_on(s, sigma, w) && #[trigger] cons(sigma) implies lmin <= sigma[ri] by {
                lemma_assignment_on_narrows(s0, s, sigma, w);
                assert(s[li].contains(sigma[li]));
            }
        }
        let ghost p = store@;
        changed = below_step(store, right, lmin, Ghost(s0), Ghost(cons), Ghost(w), changed);
        proof {
            crate::domain::lemma_narrows_trans(entry, p, store@);
        }
    }
    proof {
        assert(store@ == raise_to_min(t2, li, ri));
    }
    let ghost t3 = store@;
    if let Some(lmax) = store.max(left) {
        proof {
            lemma_greatest_is(t3[li], lmax as int);
            lemma_progress_facts(s0, store@, cons, changed, w);
            let s = store@;
            assert forall|sigma: Seq<int>| assignment_on(s, sigma, w) && #[trigger] cons(sigma) implies sigma[ri] <= lmax by {
                lemma_assignment_on_narrows(s0, s, sigma, w);
                assert(s[li].contains(sigma[li]));
            }
        }
        let ghost p = store@;
        changed = above_step(store, right, lmax, Ghost(s0), Ghost(cons), Ghost(w), changed);
        proof {
            crate::domain::lemma_narrows_trans(entry, p, store@);
        }
    }
    proof {
        assert(store@ == lower_to_max(t3, li, ri));
    }
    changed
}

impl IntMinMaxPropagator {
    /// Creates a propagator for `c = op(a, b)`.
    pub fn new(a: VariableId, b: VariableId, c: VariableId, op: IntMinMaxOp) -> (p: Self)
        ensures
            p.a == a,
            p.b == b,
            p.c == c,
            p.op == op,
    {
        IntMinMaxPropagator { a, b, c, op }
    }

    /// The variables whose domains this propagator reads.
    pub fn watched_variables(&self) -> (w: Vec<VariableId>)
        ensures
            w@ == seq![self.a, self.b, self.c],
    {
        let w = vec![self.a, self.b, self.c];
        proof {
            assert(w@ =~= seq![self.a, self.b, self.c]);
        }
        w
    }

    /// Cuts `c` to the image of the operands' bounds, the operands to `c`'s side of
    /// the relation, and, when one operand is sure to be the result, that operand and
    /// `c` to each other's bounds. No solution is lost, and it fails only when there is
    /// none. On non-empty domains the store after the run is exactly [`minmax_outcome`]
    /// of the entry store, whose cuts [`minmax_cuts_hold`] spells out.
    pub fn propagate(&mut self, store: &mut DomainStore) -> (status: PropagationStatus)
        requires
            old(self).a.index < old(store)@.len(),
            old(self).b.index < old(store)@.len(),
            old(self).c.index < old(store)@.len(),
        ensures
            *final(self) == *old(self),
            narrows(old(store)@, final(store)@),
            forall|k: int|
                0 <= k < old(store)@.len() && k != old(self).a.index && k != old(self).b.index && k != old(self).c.index
                    ==> #[trigger] final(store)@[k] == old(store)@[k],
            keeps(
                old(store)@,
                final(store)@,
                minmax_holds(old(self).a.index as int, old(self).b.index as int, old(self).c.index as int, old(self).op),
            ),
            status == PropagationStatus::Failure ==> !has_solution(
                old(store)@,
                minmax_holds(old(self).a.index as int, old(self).b.index as int, old(self).c.index as int, old(self).op),
            ),
            status != PropagationStatus::Failure ==> {
                let a0 = old(store)@[old(self).a.index as int];
                let b0 = old(store)@[old(self).b.index as int];
                let c1 = final(store)@[old(self).c.index as int];
                let image = minmax_image(old(self).op, least(a0), greatest(a0), least(b0), greatest(b0));
                &&& !final(store)@[old(self).a.index as int].is_empty()
                &&& !final(store)@[old(self).b.index as int].is_empty()
                &&& !c1.is_empty()
                &&& (status == PropagationStatus::OkChanged) == (final(store)@ != old(store)@)
                &&& within(c1, image.0, image.1)
            },
            keeps_on(old(store)@, final(store)@, minmax_holds(old(self).a.index as int, old(self).b.index as int, old(self).c.index as int, old(self).op), set![old(self).a.index as int, old(self).b.index as int, old(self).c.index as int]),
            status == PropagationStatus::Failure ==> !has_solution_on(old(store)@, minmax_holds(old(self).a.index as int, old(self).b.index as int, old(self).c.index as int, old(self).op), set![old(self).a.index as int, old(self).b.index as int, old(self).c.index as int]),
            old(store)@[old(self).a.index as int].is_empty() || old(store)@[old(self).b.index as int].is_empty() || old(store)@[old(self).c.index as int].is_empty() ==> status
                == PropagationStatus::Failure && final(store)@ == old(store)@,
            !(old(store)@[old(self).a.index as int].is_empty() || old(store)@[old(self).b.index as int].is_empty() || old(store)@[old(self).c.index as int].is_empty()) ==> {
                &&& final(store)@ == minmax_outcome(old(store)@, old(self).a.index as int, old(self).b.index as int, old(self).c.index as int, old(self).op)
                &&& (status == PropagationStatus::Failure) == (final(store)@[old(self).a.index as int].is_empty()
                    || final(store)@[old(self).b.index as int].is_empty() || final(store)@[old(self).c.index as int].is_empty())
            },
            status != PropagationStatus::Failure && old(self).a != old(self).b && old(self).a != old(self).c && old(self).b != old(self).c
                ==> minmax_cuts_hold(old(store)@, final(store)@, old(self).a.index as int, old(self).b.index as int, old(self).c.index as int, old(self).op),
    {
        store.assert_in_range();
        let ghost s0 = store@;
        let status = self.propagate_whole(store);
        proof {
            let ai = self.a.index as int;
            let bi = self.b.index as int;
            let ci = self.c.index as int;
            if status != PropagationStatus::Failure && self.a != self.b && self.a != self.c && self.b != self.c {
                assert(s0[ai].finite() && s0[bi].finite() && s0[ci].finite());
                lemma_minmax_cuts(s0, ai, bi, ci, self.op);
            }
        }
        status
    }

    /// [`IntMinMaxPropagator::propagate`] stated over assignments of the whole store.
    fn propagate_whole(&mut self, store: &mut DomainStore) -> (status: PropagationStatus)
        requires
            old(self).a.index < old(store)@.len(),
            old(self).b.index < old(store)@.len(),
            old(self).c.index < old(store)@.len(),
        ensures
            *final(self) == *old(self),
            narrows(old(store)@, final(store)@),
            forall|k: int|
                0 <= k < old(store)@.len() && k != old(self).a.index && k != old(self).b.index && k != old(self).c.index
                    ==> #[trigger] final(store)@[k] == old(store)@[k],
            keeps(
                old(store)@,
                final(store)@,
                minmax_holds(old(self).a.index as int, old(self).b.index as int, old(self).c.index as int, old(self).op),
            ),
            status == PropagationStatus::Failure ==> !has_solution(
                old(store)@,
                minmax_holds(old(self).a.index as int, old(self).b.index as int, old(self).c.index as int, old(self).op),
            ),
            keeps_on(old(store)@, final(store)@, minmax_holds(old(self).a.index as int, old(self).b.index as int, old(self).c.index as int, old(self).op), set![old(self).a.index as int, old(self).b.index as int, old(self).c.index as int]),
            status == PropagationStatus::Failure ==> !has_solution_on(old(store)@, minmax_holds(old(self).a.index as int, old(self).b.index as int, old(self).c.index as int, old(self).op), set![old(self).a.index as int, old(self).b.index as int, old(self).c.index as int]),
            status != PropagationStatus::Failure ==> {
                let a0 = old(store)@[old(self).a.index as int];
                let b0 = old(store)@[old(self).b.index as int];
                let c1 = final(store)@[old(self).c.index as int];
                let image = minmax_image(old(self).op, least(a0), greatest(a0), least(b0), greatest(b0));
                &&& !final(store)@[old(self).a.index as int].is_empty()
                &&& !final(store)@[old(self).b.index as int].is_empty()
                &&& !c1.is_empty()
                &&& (status == PropagationStatus::OkChanged) == (final(store)@ != old(store)@)
                &&& within(c1, image.0, image.1)
            },
            old(store)@[old(self).a.index as int].is_empty() || old(store)@[old(self).b.index as int].is_empty() || old(store)@[old(self).c.index as int].is_empty() ==> status
                == PropagationStatus::Failure && final(store)@ == old(store)@,
            !(old(store)@[old(self).a.index as int].is_empty() || old(store)@[old(self).b.index as int].is_empty() || old(store)@[old(self).c.index as int].is_empty()) ==> {
                &&& final(store)@ == minmax_outcome(old(store)@, old(self).a.index as int, old(self).b.index as int, old(self).c.index as int, old(self).op)
                &&& (status == PropagationStatus::Failure) == (final(store)@[old(self).a.index as int].is_empty()
                    || final(store)@[old(self).b.index as int].is_empty() || final(store)@[old(self).c.index as int].is_empty())
            },
    {
        let a = self.a;
        let b = self.b;
        let c = self.c;
        let op = self.op;
        let ghost ai = a.index as int;
        let ghost bi = b.index as int;
        let ghost ci = c.index as int;
        let ghost cons = minmax_holds(ai, bi, ci, op);
        let ghost w = set![ai, bi, ci];
        let ghost s0 = store@;
        proof {
            lemma_progress_start(s0, cons, w);
            assert(w.contains(ai) && w.contains(bi) && w.contains(ci));
        }
        let (amin, amax, bmin, bmax, cmin, cmax) = match (
            store.min(a),
            store.max(a),
            store.min(b),
            store.max(b),
            store.min(c),
            store.max(c),
        ) {
            (Some(x1), Some(x2), Some(x3), Some(x4), Some(x5), Some(x6)) => (x1, x2, x3, x4, x5, x6),
            _ => {
                proof {
                    if s0[ai].is_empty() {
                        lemma_progress_empty(s0, s0, cons, false, w, ai);
                    } else if s0[bi].is_empty() {
                        lemma_progress_empty(s0, s0, cons, false, w, bi);
                    } else {
                        lemma_progress_empty(s0, s0, cons, false, w, ci);
                    }
                }
                return PropagationStatus::Failure;
            },
        };
        proof {
            crate::domain::lemma_least_is(s0[ai], amin as int);
            crate::domain::lemma_greatest_is(s0[ai], amax as int);
            crate::domain::lemma_least_is(s0[bi], bmin as int);
            crate::domain::lemma_greatest_is(s0[bi], bmax as int);
            assert(within(s0[ai], amin as int, amax as int));
            assert(within(s0[bi], bmin as int, bmax as int));
            assert(within(s0[ci], cmin as int, cmax as int));
        }
        let mut changed = false;
        let (image_min, image_max) = match op {
            IntMinMaxOp::Min => (
                if amin <= bmin { amin } else { bmin },
                if amax <= bmax { amax } else { bmax },
            ),
            IntMinMaxOp::Max => (
                if amin >= bmin { amin } else { bmin },
                if amax >= bmax { amax } else { bmax },
            ),
        };
        if image_min > image_max {
            return PropagationStatus::Failure;
        }
        proof {
            lemma_read_bounds(s0, s0, cons, false, w, ai, amin as int, amax as int);
            lemma_read_bounds(s0, s0, cons, false, w, bi, bmin as int, bmax as int);
        }
        changed = below_step(store, c, image_min, Ghost(s0), Ghost(cons), Ghost(w), changed);
        proof {
            lemma_read_bounds(s0, store@, cons, changed, w, ai, amin as int, amax as int);
            lemma_read_bounds(s0, store@, cons, changed, w, bi, bmin as int, bmax as int);
        }
        changed = above_step(store, c, image_max, Ghost(s0), Ghost(cons), Ghost(w), changed);
        let ghost s_image = store@;
        proof {
            assert(narrows(s_image, s_image));
        }
        match op {
            IntMinMaxOp::Min => {
                proof {
                    lemma_read_bounds(s0, store@, cons, changed, w, ci, cmin as int, cmax as int);
                }
                let ghost p = store@;
                changed = below_step(store, a, cmin, Ghost(s0), Ghost(cons), Ghost(w), changed);
                proof {
                    crate::domain::lemma_narrows_trans(s_image, p, store@);
                }
                proof {
                    lemma_read_bounds(s0, store@, cons, changed, w, ci, cmin as int, cmax as int);
                }
                let ghost p = store@;
                changed = below_step(store, b, cmin, Ghost(s0), Ghost(cons), Ghost(w), changed);
                proof {
                    crate::domain::lemma_narrows_trans(s_image, p, store@);
                }
                proof {
                    lemma_read_bounds(s0, store@, cons, changed, w, ai, amin as int, amax as int);
                }
                let ghost p = store@;
                changed = above_step(store, c, amax, Ghost(s0), Ghost(cons), Ghost(w), changed);
                proof {
                    crate::domain::lemma_narrows_trans(s_image, p, store@);
                }
                proof {
                    lemma_read_bounds(s0, store@, cons, changed, w, bi, bmin as int, bmax as int);
                }
                let ghost p = store@;
                changed = above_step(store, c, bmax, Ghost(s0), Ghost(cons), Ghost(w), changed);
                proof {
                    crate::domain::lemma_narrows_trans(s_image, p, store@);
                }
                if amin >= bmax {
                    proof {
                        lemma_result_is(s0, cons, ai, bi, ci, op, amin as int, amax as int, bmin as int, bmax as int, false, w);
                    }
                    let ghost p = store@;
                    changed = sync_equal(store, b, c, Ghost(s0), Ghost(cons), Ghost(w), changed);
                    proof {
                        crate::domain::lemma_narrows_trans(s_image, p, store@);
                    }
                } else if bmin >= amax {
                    proof {
                        lemma_result_is(s0, cons, ai, bi, ci, op, amin as int, amax as int, bmin as int, bmax as int, true, w);
                    }
                    let ghost p = store@;
                    changed = sync_equal(store, a, c, Ghost(s0), Ghost(cons), Ghost(w), changed);
                    proof {
                        crate::domain::lemma_narrows_trans(s_image, p, store@);
                    }
                }
            },
            IntMinMaxOp::Max => {
                proof {
                    lemma_read_bounds(s0, store@, cons, changed, w, ci, cmin as int, cmax as int);
                }
                let ghost p = store@;
                changed = above_step(store, a, cmax, Ghost(s0), Ghost(cons), Ghost(w), changed);
                proof {
                    crate::domain::lemma_narrows_trans(s_image, p, store@);
                }
                proof {
                    lemma_read_bounds(s0, store@, cons, changed, w, ci, cmin as int, cmax as int);
                }
                let ghost p = store@;
                changed = above_step(store, b, cmax, Ghost(s0), Ghost(cons), Ghost(w), changed);
                proof {
                    crate::domain::lemma_narrows_trans(s_image, p, store@);
                }
                proof {
                    lemma_read_bounds(s0, store@, cons, changed, w, ai, amin as int, amax as int);
                }
                let ghost p = store@;
                changed = below_step(store, c, amin, Ghost(s0), Ghost(cons), Ghost(w), changed);
                proof {
                    crate::domain::lemma_narrows_trans(s_image, p, store@);
                }
                proof {
                    lemma_read_bounds(s0, store@, cons, changed, w, bi, bmin as int, bmax as int);
                }
                let ghost p = store@;
                changed = below_step(store, c, bmin, Ghost(s0), Ghost(cons), Ghost(w), changed);
                proof {
                    crate::domain::lemma_narrows_trans(s_image, p, store@);
                }
                if amax <= bmin {
                    proof {
                        lemma_result_is(s0, cons, ai, bi, ci, op, amin as int, amax as int, bmin as int, bmax as int, false, w);
                    }
                    let ghost p = store@;
                    changed = sync_equal(store, b, c, Ghost(s0), Ghost(cons), Ghost(w), changed);
                    proof {
                        crate::domain::lemma_narrows_trans(s_image, p, store@);
                    }
                } else if bmax <= amin {
                    proof {
                        lemma_result_is(s0, cons, ai, bi, ci, op, amin as int, amax as int, bmin as int, bmax as int, true, w);
                    }
                    let ghost p = store@;
                    changed = sync_equal(store, a, c, Ghost(s0), Ghost(cons), Ghost(w), changed);
                    proof {
                        crate::domain::lemma_narrows_trans(s_image, p, store@);
                    }
                }
            },
        }
        proof {
            lemma_progress_facts(s0, store@, cons, changed, w);
            assert(within(s_image[ci], image_min as int, image_max as int));
            crate::int_abs::lemma_within_subset(store@[ci], s_image[ci], image_min as int, image_max as int);
        }
        if store.is_empty(a) || store.is_empty(b) || store.is_empty(c) {
            proof {
                if store@[ai].is_empty() {
                    lemma_progress_empty(s0, store@, cons, changed, w, ai);
                } else if store@[bi].is_empty() {
                    lemma_progress_empty(s0, store@, cons, changed, w, bi);
                } else {
                    lemma_progress_empty(s0, store@, cons, changed, w, ci);
                }
            }
            PropagationStatus::Failure
        } else if changed {
            PropagationStatus::OkChanged
        } else {
            PropagationStatus::OkNoChange
        }
    }
}

/// When the operands' bounds do not overlap, every solution takes its result from the
/// one operand that the relation selects (`first` names `a`).
proof fn lemma_result_is(
    s0: Seq<Set<int>>,
    cons: spec_fn(Seq<int>) -> bool,
    ai: int,
    bi: int,
    ci: int,
    op: IntMinMaxOp,
    amin: int,
    amax: int,
    bmin: int,
    bmax: int,
    first: bool,
    w: Set<int>,
)
    requires
        cons == minmax_holds(ai, bi, ci, op),
        w.contains(ai),
        w.contains(bi),
        0 <= ai < s0.len(),
        0 <= bi < s0.len(),
        within(s0[ai], amin, amax),
        within(s0[bi], bmin, bmax),
        op == IntMinMaxOp::Min && !first ==> amin >= bmax,
        op == IntMinMaxOp::Min && first ==> bmin >= amax,
        op == IntMinMaxOp::Max && !first ==> amax <= bmin,
        op == IntMinMaxOp::Max && first ==> bmax <= amin,
    ensures
        forall|sigma: Seq<int>|
            assignment_on(s0, sigma, w) && #[trigger] cons(sigma) ==> sigma[if first { ai } else { bi }] == sigma[ci],
{
    assert forall|sigma: Seq<int>| assignment_on(s0, sigma, w) && #[trigger] cons(sigma) implies sigma[if first {
        ai
    } else {
        bi
    }] == sigma[ci] by {
        assert(s0[ai].contains(sigma[ai]));
        assert(s0[bi].contains(sigma[bi]));
    }
}

} // verus!
