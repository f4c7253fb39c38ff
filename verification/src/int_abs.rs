//! Bound arithmetic for `b = |a|`.
use crate::arith::abs_int;
use crate::domain::{
    at_least, between, greatest, lemma_greatest_is, lemma_least_is, lemma_narrow_step, least, narrows, DomainStore, PropagationStatus,
    VariableId,
};
use crate::solutions::{
    assignment_in, assignment_on, has_solution, has_solution_on, keeps, keeps_on, lemma_keeps_below, lemma_keeps_between,
    lemma_keeps_empty, lemma_keeps_on_empty, lemma_keeps_on_update, lemma_keeps_refl,
};
use vstd::prelude::*;

verus! {

/// Image of `[amin, amax]` under absolute value; in the mixed-sign case the upper bound is
/// the larger magnitude cast to `i32`, which wraps to `i32::MIN` for a magnitude of `2^31`.
pub open spec fn abs_image_spec(amin: int, amax: int) -> (int, int) {
    if amin >= 0 {
        (amin, amax)
    } else if amax <= 0 {
        (-amax, -amin)
    } else {
        let m = if abs_int(amin) >= abs_int(amax) { abs_int(amin) } else { abs_int(amax) };
        (0, if m > i32::MAX { i32::MIN as int } else { m })
    }
}

/// Bounds of `|a|` for `a` in `[amin, amax]`.
pub fn abs_image_bounds(amin: i32, amax: i32) -> (r: (i32, i32))
    requires
        !(amin < 0 && amax <= 0 && (amin == i32::MIN || amax == i32::MIN)),
    ensures
        r.0 == abs_image_spec(amin as int, amax as int).0,
        r.1 == abs_image_spec(amin as int, amax as int).1,
{
    if amin >= 0 {
        (amin, amax)
    } else if amax <= 0 {
        (-amax, -amin)
    } else {
        let ua: u32 = (0i64 - amin as i64) as u32;
        let ub: u32 = amax as u32;
        let m: u32 = if ua >= ub { ua } else { ub };
        let hi: i32 = if m > i32::MAX as u32 { i32::MIN } else { m as i32 };
        (0, hi)
    }
}

/// Within the range, the absolute value of any `a` lies in the image bounds
/// (when the larger magnitude fits in `i32`).
pub proof fn lemma_abs_image_sound(amin: int, amax: int, a: int)
    requires
        amin <= a <= amax,
        abs_int(amin) <= i32::MAX,
        abs_int(amax) <= i32::MAX,
    ensures
        abs_image_spec(amin, amax).0 <= abs_int(a) <= abs_image_spec(amin, amax).1,
{
}

/// The constraint `b = |a|` on the variables at `ai` and `bi`.
pub open spec fn abs_holds(ai: int, bi: int) -> spec_fn(Seq<int>) -> bool {
    |sigma: Seq<int>| sigma[bi] == abs_int(sigma[ai])
}

/// `s` holds `i32::MIN` and nothing above zero, so `|a|` leaves `i32`.
pub open spec fn abs_overflows(s: Set<int>) -> bool {
    s.contains(i32::MIN as int) && forall|v: int| #[trigger] s.contains(v) ==> v <= 0
}

/// Every member of `s` lies in `lo..=hi`.
pub open spec fn within(s: Set<int>, lo: int, hi: int) -> bool {
    forall|v: int| #[trigger] s.contains(v) ==> lo <= v <= hi
}

/// A domain inside a bounded one is bounded the same way.
pub proof fn lemma_within_subset(s: Set<int>, orig: Set<int>, lo: int, hi: int)
    requires
        s.subset_of(orig),
        within(orig, lo, hi),
    ensures
        within(s, lo, hi),
{
    assert forall|v: int| #[trigger] s.contains(v) implies lo <= v <= hi by {
        assert(orig.contains(v));
    }
}

/// Cutting some domain to a subset keeps every domain within the bounds it had.
pub proof fn lemma_within_after_cut(s: Seq<Set<int>>, t: int, d: Set<int>, x: int, lo: int, hi: int)
    requires
        0 <= t < s.len(),
        0 <= x < s.len(),
        d.subset_of(s[t]),
        within(s[x], lo, hi),
    ensures
        within(s.update(t, d)[x], lo, hi),
{
    if x == t {
        lemma_within_subset(d, s[t], lo, hi);
    }
}

/// The cuts of one propagation of `b = |a|` read on the final store `f` against the entry
/// store `s`: `b` is first cut to `0..` and to the image of `a`'s bounds, giving `b_img`;
/// `a` then lies within `±max(b_img)`; and when `a` still holds values of both signs, no
/// sign cut took place, so `a` is exactly its entry domain cut to `±max(b_img)` and `b` is
/// `b_img`.
pub open spec fn abs_cuts_hold(s: Seq<Set<int>>, f: Seq<Set<int>>, ai: int, bi: int) -> bool {
    let image = abs_image_spec(least(s[ai]), greatest(s[ai]));
    let b_img = between(at_least(s[bi], 0), image.0, image.1);
    let m = greatest(b_img);
    &&& within(f[ai], -m, m)
    &&& (exists|v: int| #[trigger] f[ai].contains(v) && v < 0) && (exists|v: int| #[trigger] f[ai].contains(v) && v > 0)
        ==> f[ai] == between(s[ai], -m, m) && f[bi] == b_img
}

/// Propagates `b = |a|` with bound consistency.
pub struct IntAbsPropagator {
    /// The operand.
    pub a: VariableId,
    /// The absolute value.
    pub b: VariableId,
}

impl IntAbsPropagator {
    /// Creates a propagator for `b = |a|`.
    pub fn new(a: VariableId, b: VariableId) -> (p: Self)
        ensures
            p.a == a,
            p.b == b,
    {
        IntAbsPropagator { a, b }
    }

    /// The variables whose domains this propagator reads.
    pub fn watched_variables(&self) -> (w: Vec<VariableId>)
        ensures
            w@ == seq![self.a, self.b],
    {
        let w = vec![self.a, self.b];
        proof {
            assert(w@ =~= seq![self.a, self.b]);
        }
        w
    }

    /// Cuts `b` to the image of `a`'s bounds under `|.|` and `a` to `±max(b)`, then, when
    /// the sign of `a` is known, cuts each to the bounds of the other. No solution of
    /// `b = |a|` is lost. It fails when no solution exists, and also when `a` reaches
    /// from `i32::MIN` above zero, where the image's upper bound wraps. The cuts a run
    /// that does not fail has made are those of [`abs_cuts_hold`].
    pub fn propagate(&mut self, store: &mut DomainStore) -> (status: PropagationStatus)
        requires
            old(self).a.index < old(store)@.len(),
            old(self).b.index < old(store)@.len(),
            !abs_overflows(old(store)@[old(self).a.index as int]),
        ensures
            *final(self) == *old(self),
            narrows(old(store)@, final(store)@),
            forall|k: int|
                0 <= k < old(store)@.len() && k != old(self).a.index && k != old(self).b.index ==> #[trigger] final(store)@[k]
                    == old(store)@[k],
            keeps(old(store)@, final(store)@, abs_holds(old(self).a.index as int, old(self).b.index as int)),
            status == PropagationStatus::Failure ==> !has_solution(
                old(store)@,
                abs_holds(old(self).a.index as int, old(self).b.index as int),
            ) || old(store)@[old(self).a.index as int].contains(i32::MIN as int),
            status != PropagationStatus::Failure ==> {
                let a0 = old(store)@[old(self).a.index as int];
                let b0 = old(store)@[old(self).b.index as int];
                let a1 = final(store)@[old(self).a.index as int];
                let b1 = final(store)@[old(self).b.index as int];
                let image = abs_image_spec(least(a0), greatest(a0));
                &&& !a1.is_empty() && !b1.is_empty()
                &&& (status == PropagationStatus::OkChanged) == (final(store)@ != old(store)@)
                &&& within(b1, 0, i32::MAX as int)
                &&& within(b1, image.0, image.1)
                &&& within(a1, -greatest(b0), greatest(b0))
            },
            status != PropagationStatus::Failure && old(self).a != old(self).b ==> abs_cuts_hold(
                old(store)@,
                final(store)@,
                old(self).a.index as int,
                old(self).b.index as int,
            ),
            keeps_on(old(store)@, final(store)@, abs_holds(old(self).a.index as int, old(self).b.index as int), set![old(self).a.index as int, old(self).b.index as int]),
            status == PropagationStatus::Failure ==> !has_solution_on(old(store)@, abs_holds(old(self).a.index as int, old(self).b.index as int), set![old(self).a.index as int, old(self).b.index as int])
                || old(store)@[old(self).a.index as int].contains(i32::MIN as int),
    {
        self.propagate_whole(store)
    }

    /// [`IntAbsPropagator::propagate`] stated over assignments of the whole store.
    fn propagate_whole(&mut self, store: &mut DomainStore) -> (status: PropagationStatus)
        requires
            old(self).a.index < old(store)@.len(),
            old(self).b.index < old(store)@.len(),
            !abs_overflows(old(store)@[old(self).a.index as int]),
        ensures
            *final(self) == *old(self),
            narrows(old(store)@, final(store)@),
            forall|k: int|
                0 <= k < old(store)@.len() && k != old(self).a.index && k != old(self).b.index ==> #[trigger] final(store)@[k]
                    == old(store)@[k],
            keeps(old(store)@, final(store)@, abs_holds(old(self).a.index as int, old(self).b.index as int)),
            status == PropagationStatus::Failure ==> !has_solution(
                old(store)@,
                abs_holds(old(self).a.index as int, old(self).b.index as int),
            ) || old(store)@[old(self).a.index as int].contains(i32::MIN as int),
            keeps_on(old(store)@, final(store)@, abs_holds(old(self).a.index as int, old(self).b.index as int), set![old(self).a.index as int, old(self).b.index as int]),
            status == PropagationStatus::Failure ==> !has_solution_on(old(store)@, abs_holds(old(self).a.index as int, old(self).b.index as int), set![old(self).a.index as int, old(self).b.index as int])
                || old(store)@[old(self).a.index as int].contains(i32::MIN as int),
            status != PropagationStatus::Failure ==> {
                let a0 = old(store)@[old(self).a.index as int];
                let b0 = old(store)@[old(self).b.index as int];
                let a1 = final(store)@[old(self).a.index as int];
                let b1 = final(store)@[old(self).b.index as int];
                let image = abs_image_spec(least(a0), greatest(a0));
                &&& !a1.is_empty() && !b1.is_empty()
                &&& (status == PropagationStatus::OkChanged) == (final(store)@ != old(store)@)
                &&& within(b1, 0, i32::MAX as int)
                &&& within(b1, image.0, image.1)
                &&& within(a1, -greatest(b0), greatest(b0))
            },
            status != PropagationStatus::Failure && old(self).a != old(self).b ==> abs_cuts_hold(
                old(store)@,
                final(store)@,
                old(self).a.index as int,
                old(self).b.index as int,
            ),
    {
        let a = self.a;
        let b = self.b;
        let ghost ai = a.index as int;
        let ghost bi = b.index as int;
        let ghost c = abs_holds(ai, bi);
        let ghost w = set![ai, bi];
        let ghost s0 = store@;
        proof {
            lemma_keeps_refl(s0, c);
            assert(narrows(s0, s0));
            assert(w.contains(ai) && w.contains(bi));
        }
        let (amin, amax, bmax) = match (store.min(a), store.max(a), store.min(b), store.max(b)) {
            (Some(w), Some(x), Some(_), Some(z)) => (w, x, z),
            _ => {
                proof {
                    if s0[ai].is_empty() {
                        lemma_keeps_empty(s0, s0, ai, c);
                        lemma_keeps_on_empty(s0, s0, ai, c, w);
                    } else {
                        lemma_keeps_empty(s0, s0, bi, c);
                        lemma_keeps_on_empty(s0, s0, bi, c, w);
                    }
                }
                return PropagationStatus::Failure;
            },
        };
        proof {
            lemma_least_is(s0[ai], amin as int);
            lemma_greatest_is(s0[ai], amax as int);
            lemma_greatest_is(s0[bi], bmax as int);
            assert(within(s0[ai], amin as int, amax as int));
            assert(within(s0[bi], i32::MIN as int, bmax as int));
            if amin < 0 && amax <= 0 && amin == i32::MIN {
                assert(abs_overflows(s0[ai]));
            }
        }
        // |a| >= 0
        let mut changed = store.remove_below(b, 0);
        proof {
            lemma_keeps_below(s0, s0, bi, 0, c);
            assert forall|sigma: Seq<int>| assignment_on(s0, sigma, w) && #[trigger] c(sigma) implies crate::domain::at_least(
                s0[bi],
                0,
            ).contains(sigma[bi]) by {
                assert(s0[bi].contains(sigma[bi]));
            }
            lemma_keeps_on_update(s0, s0, bi, crate::domain::at_least(s0[bi], 0), c, w);
            lemma_narrow_step(s0, s0, store@, false, changed);
        }
        let (image_min, image_max) = abs_image_bounds(amin, amax);
        if image_min > image_max {
            proof {
                assert(s0[ai].contains(i32::MIN as int));
            }
            return PropagationStatus::Failure;
        }
        let ghost s1 = store@;
        let step = store.restrict(b, image_min, image_max);
        proof {
            assert forall|sigma: Seq<int>| assignment_in(s1, sigma) && #[trigger] c(sigma) implies image_min <= sigma[bi]
                <= image_max by {
                assert(s1[ai].contains(sigma[ai]));
                assert(s0[ai].contains(sigma[ai]));
                lemma_abs_image_sound(amin as int, amax as int, sigma[ai]);
            }
            lemma_keeps_between(s0, s1, bi, image_min as int, image_max as int, c);
            assert forall|sigma: Seq<int>| assignment_on(s1, sigma, w) && #[trigger] c(sigma) implies between(
                s1[bi],
                image_min as int,
                image_max as int,
            ).contains(sigma[bi]) by {
                assert(s1[ai].contains(sigma[ai]));
                assert(s1[bi].contains(sigma[bi]));
                assert(s0[ai].contains(sigma[ai]));
                lemma_abs_image_sound(amin as int, amax as int, sigma[ai]);
            }
            lemma_keeps_on_update(s0, s1, bi, between(s1[bi], image_min as int, image_max as int), c, w);
            lemma_narrow_step(s0, s1, store@, changed, step);
        }
        changed = changed || step;
        let ghost s2 = store@;
        proof {
            assert(within(s2[bi], 0, image_max as int)) by {
                assert forall|v: int| #[trigger] s2[bi].contains(v) implies 0 <= v <= image_max by {
                    assert(s1[bi].contains(v));
                }
            }
        }
        let (bmin2, bmax2) = match (store.min(b), store.max(b)) {
            (Some(y), Some(z)) => (y, z),
            _ => {
                proof {
                    lemma_keeps_empty(s0, s2, bi, c);
                    lemma_keeps_on_empty(s0, s2, bi, c, w);
                }
                return PropagationStatus::Failure;
            },
        };
        proof {
            assert(s2[bi].contains(bmax2 as int));
            assert(s0[bi].contains(bmax2 as int));
            assert(within(s2[bi], bmin2 as int, bmax2 as int));
        }
        // a in [-max(b), max(b)]
        let step = store.restrict(a, -bmax2, bmax2);
        proof {
            assert forall|sigma: Seq<int>| assignment_in(s2, sigma) && #[trigger] c(sigma) implies -bmax2 <= sigma[ai]
                <= bmax2 by {
                assert(s2[bi].contains(sigma[bi]));
            }
            lemma_keeps_between(s0, s2, ai, -bmax2 as int, bmax2 as int, c);
            assert forall|sigma: Seq<int>| assignment_on(s2, sigma, w) && #[trigger] c(sigma) implies between(
                s2[ai],
                -bmax2 as int,
                bmax2 as int,
            ).contains(sigma[ai]) by {
                assert(s2[ai].contains(sigma[ai]));
                assert(s2[bi].contains(sigma[bi]));
            }
            lemma_keeps_on_update(s0, s2, ai, between(s2[ai], -bmax2 as int, bmax2 as int), c, w);
            lemma_narrow_step(s0, s2, store@, changed, step);
        }
        changed = changed || step;
        let ghost s3 = store@;
        proof {
            assert(within(s3[ai], -bmax2 as int, bmax2 as int)) by {
                assert forall|v: int| #[trigger] s3[ai].contains(v) implies -bmax2 <= v <= bmax2 by {
                    assert(s2.update(ai, crate::domain::between(s2[ai], -bmax2 as int, bmax2 as int))[ai].contains(v));
                }
            }
            lemma_within_subset(s3[bi], s2[bi], bmin2 as int, bmax2 as int);
            lemma_within_subset(s3[bi], s2[bi], 0, image_max as int);
        }
        let (amin2, amax2) = match (store.min(a), store.max(a)) {
            (Some(w), Some(x)) => (w, x),
            _ => {
                proof {
                    lemma_keeps_empty(s0, s3, ai, c);
                    lemma_keeps_on_empty(s0, s3, ai, c, w);
                }
                return PropagationStatus::Failure;
            },
        };
        proof {
            assert(within(s3[ai], amin2 as int, amax2 as int));
            assert forall|sigma: Seq<int>| assignment_in(s3, sigma) && #[trigger] c(sigma) implies amin2 <= sigma[ai]
                <= amax2 && bmin2 <= sigma[bi] <= bmax2 by {
                assert(s3[ai].contains(sigma[ai]));
                assert(s3[bi].contains(sigma[bi]));
            }
            assert forall|sigma: Seq<int>| assignment_on(s3, sigma, w) && #[trigger] c(sigma) implies amin2 <= sigma[ai]
                <= amax2 && bmin2 <= sigma[bi] <= bmax2 by {
                assert(s3[ai].contains(sigma[ai]));
                assert(s3[bi].contains(sigma[bi]));
            }
        }
        if amin2 >= 0 {
            // b = a
            changed = sign_cuts(store, a, b, bmin2, bmax2, amin2, amax2, Ghost(s0), changed) || changed;
        } else if amax2 <= 0 {
            // a = -b
            changed = sign_cuts(store, a, b, -bmax2, -bmin2, -amax2, -amin2, Ghost(s0), changed) || changed;
        }
        proof {
            lemma_within_subset(store@[bi], s3[bi], 0, image_max as int);
            lemma_within_subset(store@[ai], s3[ai], -bmax2 as int, bmax2 as int);
            lemma_within_subset(store@[ai], s3[ai], -bmax as int, bmax as int);
            if ai != bi {
                let image = abs_image_spec(least(s0[ai]), greatest(s0[ai]));
                assert(image.0 == image_min && image.1 == image_max);
                assert(s2[bi] == between(at_least(s0[bi], 0), image.0, image.1));
                assert(s2[ai] == s0[ai]);
                lemma_greatest_is(s2[bi], bmax2 as int);
                let f = store@;
                if (exists|v: int| #[trigger] f[ai].contains(v) && v < 0) && (exists|v: int| #[trigger] f[ai].contains(v) && v > 0) {
                    let vn = choose|v: int| #[trigger] f[ai].contains(v) && v < 0;
                    let vp = choose|v: int| #[trigger] f[ai].contains(v) && v > 0;
                    assert(s3[ai].contains(vn) && s3[ai].contains(vp));
                    assert(!(amin2 >= 0));
                    assert(!(amax2 <= 0));
                    assert(f == s3);
                }
            }
        }
        if store.is_empty(a) || store.is_empty(b) {
            proof {
                if store@[ai].is_empty() {
                    lemma_keeps_empty(s0, store@, ai, c);
                    lemma_keeps_on_empty(s0, store@, ai, c, w);
                } else {
                    lemma_keeps_empty(s0, store@, bi, c);
                    lemma_keeps_on_empty(s0, store@, bi, c, w);
                }
            }
            PropagationStatus::Failure
        } else if changed {
            PropagationStatus::OkChanged
        } else {
            PropagationStatus::OkNoChange
        }
    }
}

/// Store after `a` is cut to `alo..=ahi`, then `b` to `blo..=bhi`.
pub open spec fn sign_cut_result(s: Seq<Set<int>>, a: int, b: int, alo: int, ahi: int, blo: int, bhi: int) -> Seq<Set<int>> {
    let s1 = s.update(a, between(s[a], alo, ahi));
    s1.update(b, between(s1[b], blo, bhi))
}

/// Once the sign of `a` is known, cuts `a` to `alo..=ahi` and `b` to `blo..=bhi`, the
/// bounds that `b = |a|` carries over from the other side.
fn sign_cuts(
    store: &mut DomainStore,
    a: VariableId,
    b: VariableId,
    alo: i32,
    ahi: i32,
    blo: i32,
    bhi: i32,
    Ghost(s0): Ghost<Seq<Set<int>>>,
    changed: bool,
) -> (r: bool)
    requires
        a.index < old(store)@.len(),
        b.index < old(store)@.len(),
        narrows(s0, old(store)@),
        keeps(s0, old(store)@, abs_holds(a.index as int, b.index as int)),
        keeps_on(s0, old(store)@, abs_holds(a.index as int, b.index as int), set![a.index as int, b.index as int]),
        changed == (old(store)@ != s0),
        forall|sigma: Seq<int>|
            assignment_in(old(store)@, sigma) && #[trigger] abs_holds(a.index as int, b.index as int)(sigma) ==> alo
                <= sigma[a.index as int] <= ahi && blo <= sigma[b.index as int] <= bhi,
        forall|sigma: Seq<int>|
            assignment_on(old(store)@, sigma, set![a.index as int, b.index as int]) && #[trigger] abs_holds(
                a.index as int,
                b.index as int,
            )(sigma) ==> alo <= sigma[a.index as int] <= ahi && blo <= sigma[b.index as int] <= bhi,
    ensures
        narrows(old(store)@, final(store)@),
        narrows(s0, final(store)@),
        keeps(s0, final(store)@, abs_holds(a.index as int, b.index as int)),
        keeps_on(s0, final(store)@, abs_holds(a.index as int, b.index as int), set![a.index as int, b.index as int]),
        (changed || r) == (final(store)@ != s0),
        forall|k: int|
            0 <= k < old(store)@.len() && k != a.index && k != b.index ==> #[trigger] final(store)@[k] == old(store)@[k],
        final(store)@ == sign_cut_result(old(store)@, a.index as int, b.index as int, alo as int, ahi as int, blo as int, bhi as int),
        r == (final(store)@ != old(store)@),
{
    let ghost c = abs_holds(a.index as int, b.index as int);
    let ghost w = set![a.index as int, b.index as int];
    let ghost s1 = store@;
    let c1 = store.restrict(a, alo, ahi);
    proof {
        lemma_keeps_between(s0, s1, a.index as int, alo as int, ahi as int, c);
        assert forall|sigma: Seq<int>| assignment_on(s1, sigma, w) && #[trigger] c(sigma) implies between(
            s1[a.index as int],
            alo as int,
            ahi as int,
        ).contains(sigma[a.index as int]) by {
            assert(w.contains(a.index as int));
            assert(s1[a.index as int].contains(sigma[a.index as int]));
        }
        lemma_keeps_on_update(s0, s1, a.index as int, between(s1[a.index as int], alo as int, ahi as int), c, w);
        lemma_narrow_step(s0, s1, store@, changed, c1);
    }
    let ghost s2 = store@;
    let c2 = store.restrict(b, blo, bhi);
    proof {
        assert forall|sigma: Seq<int>| assignment_in(s2, sigma) && #[trigger] c(sigma) implies blo <= sigma[b.index as int]
            <= bhi by {
            crate::solutions::lemma_assignment_narrows(s1, s2, sigma);
        }
        lemma_keeps_between(s0, s2, b.index as int, blo as int, bhi as int, c);
        assert forall|sigma: Seq<int>| assignment_on(s2, sigma, w) && #[trigger] c(sigma) implies between(
            s2[b.index as int],
            blo as int,
            bhi as int,
        ).contains(sigma[b.index as int]) by {
            assert(w.contains(b.index as int));
            assert(s2[b.index as int].contains(sigma[b.index as int]));
            crate::solutions::lemma_assignment_on_narrows(s1, s2, sigma, w);
        }
        lemma_keeps_on_update(s0, s2, b.index as int, between(s2[b.index as int], blo as int, bhi as int), c, w);
        lemma_narrow_step(s0, s2, store@, changed || c1, c2);
        lemma_narrow_step(s1, s1, s2, false, c1);
        crate::domain::lemma_narrows_trans(s1, s2, store@);
        lemma_narrow_step(s1, s2, store@, c1, c2);
    }
    c1 || c2
}

} // verus!
