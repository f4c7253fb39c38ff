//! Pairwise non-overlap of rectangles with fixed or variable sizes.
use vstd::prelude::*;

use crate::arith::{clamp_i32, clamp_i32_spec};
use crate::domain::{
    at_least, greatest, least, lemma_greatest_is, lemma_least_is, lemma_narrow_step, narrows, DomainStore,
    PropagationStatus, VariableId,
};
use crate::int_div::min_int;

verus! {

/// A rectangle whose lower-left corner is `(x, y)`.
#[derive(Clone, Copy, Debug, PartialEq, Eq)]
pub struct RectangleSpec {
    /// Left x coordinate.
    pub x: VariableId,
    /// Bottom y coordinate.
    pub y: VariableId,
    /// Fixed width (used when `width_var` is `None`).
    pub width: i32,
    /// Fixed height (used when `height_var` is `None`).
    pub height: i32,
    /// Optional variable width.
    pub width_var: Option<VariableId>,
    /// Optional variable height.
    pub height_var: Option<VariableId>,
}

impl RectangleSpec {
    /// A rectangle of fixed size `width` by `height`.
    pub fn new(x: VariableId, y: VariableId, width: i32, height: i32) -> (r: Self)
        ensures
            r == (RectangleSpec { x, y, width, height, width_var: None, height_var: None }),
    {
        RectangleSpec { x, y, width, height, width_var: None, height_var: None }
    }

    /// A rectangle whose width and height may be variables.
    pub fn with_variable_size(
        x: VariableId,
        y: VariableId,
        width: i32,
        width_var: Option<VariableId>,
        height: i32,
        height_var: Option<VariableId>,
    ) -> (r: Self)
        ensures
            r == (RectangleSpec { x, y, width, height, width_var, height_var }),
    {
        RectangleSpec { x, y, width, height, width_var, height_var }
    }
}

/// Every variable of the rectangle names a domain of a store of `n` domains.
pub open spec fn rect_in_range(r: RectangleSpec, n: nat) -> bool {
    &&& r.x.index < n
    &&& r.y.index < n
    &&& (r.width_var matches Some(w) ==> w.index < n)
    &&& (r.height_var matches Some(h) ==> h.index < n)
}

/// Least and greatest size: the fixed size, or the bounds of the size variable's
/// domain (none when it is empty).
pub open spec fn size_bounds_spec(s: Seq<Set<int>>, fixed: int, var: Option<VariableId>) -> Option<(int, int)> {
    match var {
        Some(v) => if s[v.index as int].is_empty() {
            None
        } else {
            Some((least(s[v.index as int]), greatest(s[v.index as int])))
        },
        None => Some((fixed, fixed)),
    }
}

/// `s` with the values of the domain at `k` below `bound` removed.
pub open spec fn cut_below(s: Seq<Set<int>>, k: int, bound: int) -> Seq<Set<int>> {
    s.update(k, at_least(s[k], bound))
}

/// `hi - size + 1`, each step saturating into `i32`.
pub open spec fn push_bound(hi: int, size: int) -> int {
    clamp_i32_spec(clamp_i32_spec(hi - size) + 1)
}

/// Store after pushing apart the two rectangles `l` and `r` on `s`: when neither can
/// be beside or above the other for sure, a forced overlap on one axis (by least sizes)
/// raises the lower coordinates on the other axis.
pub open spec fn pair_outcome(s: Seq<Set<int>>, l: RectangleSpec, r: RectangleSpec) -> Seq<Set<int>> {
    let lx = s[l.x.index as int];
    let ly = s[l.y.index as int];
    let rx = s[r.x.index as int];
    let ry = s[r.y.index as int];
    let lw = size_bounds_spec(s, l.width as int, l.width_var);
    let lh = size_bounds_spec(s, l.height as int, l.height_var);
    let rw = size_bounds_spec(s, r.width as int, r.width_var);
    let rh = size_bounds_spec(s, r.height as int, r.height_var);
    if lx.is_empty() || ly.is_empty() || rx.is_empty() || ry.is_empty() || lw is None || lh is None || rw is None
        || rh is None {
        s
    } else {
        let (lx_min, lx_max, ly_min, ly_max) = (least(lx), greatest(lx), least(ly), greatest(ly));
        let (rx_min, rx_max, ry_min, ry_max) = (least(rx), greatest(rx), least(ry), greatest(ry));
        let (lw_min, lw_max) = lw->0;
        let (lh_min, lh_max) = lh->0;
        let (rw_min, rw_max) = rw->0;
        let (rh_min, rh_max) = rh->0;
        if lx_max + lw_max <= rx_min || rx_max + rw_max <= lx_min || ly_max + lh_max <= ry_min || ry_max + rh_max
            <= ly_min {
            s
        } else {
            let s1 = if lx_min + lw_min > rx_max && rx_min + rw_min > lx_max {
                let gap = min_int(lh_min, rh_min);
                let t = if ly_max + gap > ry_min {
                    cut_below(s, l.y.index as int, push_bound(ry_max, lh_max))
                } else {
                    s
                };
                if ry_max + gap > ly_min {
                    cut_below(t, r.y.index as int, push_bound(ly_max, rh_max))
                } else {
                    t
                }
            } else {
                s
            };
            if ly_min + lh_min > ry_max && ry_min + rh_min > ly_max {
                let gap = min_int(lw_min, rw_min);
                let t = if lx_max + gap > rx_min {
                    cut_below(s1, l.x.index as int, push_bound(rx_max, lw_max))
                } else {
                    s1
                };
                if rx_max + gap > lx_min {
                    cut_below(t, r.x.index as int, push_bound(lx_max, rw_max))
                } else {
                    t
                }
            } else {
                s1
            }
        }
    }
}

/// Store after the pairs `(left, right)`, `(left, right + 1)`, … of one row.
pub open spec fn diffn_row(s: Seq<Set<int>>, rects: Seq<RectangleSpec>, left: int, right: int) -> Seq<Set<int>>
    decreases rects.len() - right,
{
    if right >= rects.len() || right < 0 {
        s
    } else {
        diffn_row(pair_outcome(s, rects[left], rects[right]), rects, left, right + 1)
    }
}

/// Store after the rows `left`, `left + 1`, … of pairs.
pub open spec fn diffn_rows(s: Seq<Set<int>>, rects: Seq<RectangleSpec>, left: int) -> Seq<Set<int>>
    decreases rects.len() - left,
{
    if left >= rects.len() || left < 0 {
        s
    } else {
        diffn_rows(diffn_row(s, rects, left, left + 1), rects, left + 1)
    }
}

/// Some coordinate or size domain of a rectangle of `rects` is empty.
pub open spec fn some_rect_empty(s: Seq<Set<int>>, rects: Seq<RectangleSpec>) -> bool {
    exists|i: int|
        0 <= i < rects.len() && {
            let r = #[trigger] rects[i];
            ||| s[r.x.index as int].is_empty()
            ||| s[r.y.index as int].is_empty()
            ||| (r.width_var matches Some(w) && s[w.index as int].is_empty())
            ||| (r.height_var matches Some(h) && s[h.index as int].is_empty())
        }
}

/// The least size of a side: the fixed size, or the least value of the size variable.
pub open spec fn least_size(s: Seq<Set<int>>, fixed: int, var: Option<VariableId>) -> int {
    match var {
        Some(v) => least(s[v.index as int]),
        None => fixed,
    }
}

/// With their least widths, the x-runs of `l` and `r` overlap wherever in `s` the two
/// rectangles are placed: each reaches past the other's largest x.
pub open spec fn x_overlap_forced(s: Seq<Set<int>>, l: RectangleSpec, r: RectangleSpec) -> bool {
    &&& least(s[l.x.index as int]) + least_size(s, l.width as int, l.width_var) > greatest(s[r.x.index as int])
    &&& least(s[r.x.index as int]) + least_size(s, r.width as int, r.width_var) > greatest(s[l.x.index as int])
}

/// With their least heights, the y-runs of `l` and `r` overlap wherever in `s` the two
/// rectangles are placed.
pub open spec fn y_overlap_forced(s: Seq<Set<int>>, l: RectangleSpec, r: RectangleSpec) -> bool {
    &&& least(s[l.y.index as int]) + least_size(s, l.height as int, l.height_var) > greatest(s[r.y.index as int])
    &&& least(s[r.y.index as int]) + least_size(s, r.height as int, r.height_var) > greatest(s[l.y.index as int])
}

/// The y variables of `l` and `r` are neither x variable of the two.
pub open spec fn y_apart_from_x(l: RectangleSpec, r: RectangleSpec) -> bool {
    &&& l.y.index != l.x.index && l.y.index != r.x.index
    &&& r.y.index != l.x.index && r.y.index != r.x.index
}

/// Pushing two rectangles apart touches only their coordinates; it moves the y
/// coordinates only when the x-runs overlap for sure, and the x coordinates only when
/// the y-runs overlap for sure; with neither overlap forced, it changes nothing.
pub proof fn law_diffn_pair_pushes_only_when_forced(s: Seq<Set<int>>, l: RectangleSpec, r: RectangleSpec)
    requires
        rect_in_range(l, s.len()),
        rect_in_range(r, s.len()),
    ensures
        pair_outcome(s, l, r).len() == s.len(),
        forall|k: int|
            0 <= k < s.len() && k != l.x.index && k != r.x.index && k != l.y.index && k != r.y.index ==> #[trigger] pair_outcome(
                s,
                l,
                r,
            )[k] == s[k],
        !x_overlap_forced(s, l, r) && y_apart_from_x(l, r) ==> pair_outcome(s, l, r)[l.y.index as int] == s[l.y.index as int]
            && pair_outcome(s, l, r)[r.y.index as int] == s[r.y.index as int],
        !y_overlap_forced(s, l, r) && y_apart_from_x(l, r) ==> pair_outcome(s, l, r)[l.x.index as int] == s[l.x.index as int]
            && pair_outcome(s, l, r)[r.x.index as int] == s[r.x.index as int],
        !x_overlap_forced(s, l, r) && !y_overlap_forced(s, l, r) ==> pair_outcome(s, l, r) == s,
{
}

/// The greatest size of a side: the fixed size, or the greatest value of the size
/// variable.
pub open spec fn greatest_size(s: Seq<Set<int>>, fixed: int, var: Option<VariableId>) -> int {
    match var {
        Some(v) => greatest(s[v.index as int]),
        None => fixed,
    }
}

/// Even at their largest extents, `l` and `r` are apart in `s` on one axis: one lies
/// entirely left of, or below, the other wherever they are placed.
pub open spec fn separated_for_sure(s: Seq<Set<int>>, l: RectangleSpec, r: RectangleSpec) -> bool {
    ||| greatest(s[l.x.index as int]) + greatest_size(s, l.width as int, l.width_var) <= least(s[r.x.index as int])
    ||| greatest(s[r.x.index as int]) + greatest_size(s, r.width as int, r.width_var) <= least(s[l.x.index as int])
    ||| greatest(s[l.y.index as int]) + greatest_size(s, l.height as int, l.height_var) <= least(s[r.y.index as int])
    ||| greatest(s[r.y.index as int]) + greatest_size(s, r.height as int, r.height_var) <= least(s[l.y.index as int])
}

/// Whenever two rectangles are apart for sure, pushing them apart changes nothing.
pub proof fn law_diffn_separated_unchanged(s: Seq<Set<int>>, l: RectangleSpec, r: RectangleSpec)
    requires
        rect_in_range(l, s.len()),
        rect_in_range(r, s.len()),
        separated_for_sure(s, l, r),
    ensures
        pair_outcome(s, l, r) == s,
{
}

/// The one coordinate `c` of `l` loses a value `v` in the push of `l` away from `r` only
/// when the runs on the other axis overlap for sure (`forced`), `l` can still reach up
/// to `r` on this axis with the smaller least size of the two (`reach`), and at `v`,
/// even with its greatest size `size_max`, `l` would end by `r`'s greatest coordinate
/// `other_max` (where `other_max - size_max` fits `i32` from below).
pub open spec fn push_justified(forced: bool, reach: bool, v: int, size_max: int, other_max: int) -> bool {
    &&& forced
    &&& reach
    &&& (other_max - size_max >= i32::MIN ==> v + size_max <= other_max)
}

/// Every value that pushing two rectangles apart removes from a coordinate is justified
/// ([`push_justified`]): the y coordinates lose values only under a forced x overlap,
/// the x coordinates only under a forced y overlap, and only values at which the pushed
/// rectangle would lie entirely before the other one's greatest coordinate.
pub proof fn law_diffn_pair_removals(s: Seq<Set<int>>, l: RectangleSpec, r: RectangleSpec)
    requires
        rect_in_range(l, s.len()),
        rect_in_range(r, s.len()),
        y_apart_from_x(l, r),
        l.x.index != r.x.index,
        l.y.index != r.y.index,
    ensures
        forall|v: int|
            #[trigger] s[l.y.index as int].contains(v) && !pair_outcome(s, l, r)[l.y.index as int].contains(v) ==> push_justified(
                x_overlap_forced(s, l, r),
                greatest(s[l.y.index as int]) + min_int(least_size(s, l.height as int, l.height_var), least_size(s, r.height as int, r.height_var)) > least(s[r.y.index as int]),
                v,
                greatest_size(s, l.height as int, l.height_var),
                greatest(s[r.y.index as int]),
            ),
        forall|v: int|
            #[trigger] s[r.y.index as int].contains(v) && !pair_outcome(s, l, r)[r.y.index as int].contains(v) ==> push_justified(
                x_overlap_forced(s, l, r),
                greatest(s[r.y.index as int]) + min_int(least_size(s, l.height as int, l.height_var), least_size(s, r.height as int, r.height_var)) > least(s[l.y.index as int]),
                v,
                greatest_size(s, r.height as int, r.height_var),
                greatest(s[l.y.index as int]),
            ),
        forall|v: int|
            #[trigger] s[l.x.index as int].contains(v) && !pair_outcome(s, l, r)[l.x.index as int].contains(v) ==> push_justified(
                y_overlap_forced(s, l, r),
                greatest(s[l.x.index as int]) + min_int(least_size(s, l.width as int, l.width_var), least_size(s, r.width as int, r.width_var)) > least(s[r.x.index as int]),
                v,
                greatest_size(s, l.width as int, l.width_var),
                greatest(s[r.x.index as int]),
            ),
        forall|v: int|
            #[trigger] s[r.x.index as int].contains(v) && !pair_outcome(s, l, r)[r.x.index as int].contains(v) ==> push_justified(
                y_overlap_forced(s, l, r),
                greatest(s[r.x.index as int]) + min_int(least_size(s, l.width as int, l.width_var), least_size(s, r.width as int, r.width_var)) > least(s[l.x.index as int]),
                v,
                greatest_size(s, r.width as int, r.width_var),
                greatest(s[l.x.index as int]),
            ),
{
}

/// No two rectangles of `rects` have a forced overlap on either axis in `s`.
pub open spec fn no_forced_overlap(s: Seq<Set<int>>, rects: Seq<RectangleSpec>) -> bool {
    forall|i: int, j: int|
        0 <= i < j < rects.len() ==> !x_overlap_forced(s, #[trigger] rects[i], #[trigger] rects[j]) && !y_overlap_forced(
            s,
            rects[i],
            rects[j],
        )
}

/// A row of pairs without a forced overlap changes nothing.
proof fn lemma_row_unforced(s: Seq<Set<int>>, rects: Seq<RectangleSpec>, left: int, right: int)
    requires
        0 <= left < rects.len(),
        left < right,
        forall|i: int| 0 <= i < rects.len() ==> rect_in_range(#[trigger] rects[i], s.len()),
        no_forced_overlap(s, rects),
    ensures
        diffn_row(s, rects, left, right) == s,
    decreases rects.len() - right,
{
    if right < rects.len() {
        assert(!x_overlap_forced(s, rects[left], rects[right]) && !y_overlap_forced(s, rects[left], rects[right]));
        law_diffn_pair_pushes_only_when_forced(s, rects[left], rects[right]);
        lemma_row_unforced(s, rects, left, right + 1);
    }
}

/// Rows of pairs without a forced overlap change nothing.
proof fn lemma_rows_unforced(s: Seq<Set<int>>, rects: Seq<RectangleSpec>, left: int)
    requires
        0 <= left,
        forall|i: int| 0 <= i < rects.len() ==> rect_in_range(#[trigger] rects[i], s.len()),
        no_forced_overlap(s, rects),
    ensures
        diffn_rows(s, rects, left) == s,
    decreases rects.len() - left,
{
    if left < rects.len() {
        lemma_row_unforced(s, rects, left, left + 1);
        lemma_rows_unforced(s, rects, left + 1);
    }
}

/// When no two rectangles overlap for sure on either axis, propagation changes nothing.
pub proof fn law_diffn_unforced_unchanged(s: Seq<Set<int>>, rects: Seq<RectangleSpec>)
    requires
        forall|i: int| 0 <= i < rects.len() ==> rect_in_range(#[trigger] rects[i], s.len()),
        no_forced_overlap(s, rects),
    ensures
        diffn_rows(s, rects, 0) == s,
{
    lemma_rows_unforced(s, rects, 0);
}

/// Least and greatest size of a rectangle side, as [`size_bounds_spec`].
fn size_bounds(store: &DomainStore, fixed: i32, var: Option<VariableId>) -> (r: Option<(i32, i32)>)
    requires
        var matches Some(v) ==> v.index < store@.len(),
    ensures
        match r {
            Some(b) => size_bounds_spec(store@, fixed as int, var) == Some((b.0 as int, b.1 as int)),
            None => size_bounds_spec(store@, fixed as int, var) is None,
        },
{
    match var {
        Some(v) => {
            match (store.min(v), store.max(v)) {
                (Some(lo), Some(hi)) => {
                    proof {
                        lemma_least_is(store@[v.index as int], lo as int);
                        lemma_greatest_is(store@[v.index as int], hi as int);
                    }
                    Some((lo, hi))
                },
                _ => None,
            }
        },
        None => Some((fixed, fixed)),
    }
}

/// Removes the values of `var` below `bound` when `cond` holds; keeps the running flag
/// `changed` exact with respect to `s0`.
fn cut_below_if(store: &mut DomainStore, cond: bool, var: VariableId, bound: i32, changed: bool, Ghost(s0): Ghost<Seq<Set<int>>>) -> (now: bool)
    requires
        var.index < old(store)@.len(),
        narrows(s0, old(store)@),
        changed == (old(store)@ != s0),
    ensures
        final(store)@ == (if cond { cut_below(old(store)@, var.index as int, bound as int) } else { old(store)@ }),
        narrows(s0, final(store)@),
        now == (final(store)@ != s0),
{
    if cond {
        let ghost t = store@;
        let step = store.remove_below(var, bound);
        proof {
            lemma_narrow_step(s0, t, store@, changed, step);
        }
        changed || step
    } else {
        changed
    }
}

/// Pushes apart the rectangles `left` and `right` (see [`pair_outcome`]); returns
/// whether a domain changed.
fn propagate_pair(store: &mut DomainStore, left: RectangleSpec, right: RectangleSpec) -> (changed: bool)
    requires
        rect_in_range(left, old(store)@.len()),
        rect_in_range(right, old(store)@.len()),
    ensures
        final(store)@ == pair_outcome(old(store)@, left, right),
        narrows(old(store)@, final(store)@),
        changed == (final(store)@ != old(store)@),
{
    let ghost s = store@;
    proof {
        assert(narrows(s, s));
    }
    let (lx_min, lx_max, ly_min, ly_max) = match (store.min(left.x), store.max(left.x), store.min(left.y), store.max(left.y)) {
        (Some(a), Some(b), Some(c), Some(d)) => (a, b, c, d),
        _ => {
            return false;
        },
    };
    let (rx_min, rx_max, ry_min, ry_max) = match (store.min(right.x), store.max(right.x), store.min(right.y), store.max(right.y)) {
        (Some(a), Some(b), Some(c), Some(d)) => (a, b, c, d),
        _ => {
            return false;
        },
    };
    proof {
        lemma_least_is(s[left.x.index as int], lx_min as int);
        lemma_greatest_is(s[left.x.index as int], lx_max as int);
        lemma_least_is(s[left.y.index as int], ly_min as int);
        lemma_greatest_is(s[left.y.index as int], ly_max as int);
        lemma_least_is(s[right.x.index as int], rx_min as int);
        lemma_greatest_is(s[right.x.index as int], rx_max as int);
        lemma_least_is(s[right.y.index as int], ry_min as int);
        lemma_greatest_is(s[right.y.index as int], ry_max as int);
    }
    let (lw_min, lw_max) = match size_bounds(store, left.width, left.width_var) {
        Some(b) => b,
        None => {
            return false;
        },
    };
    let (lh_min, lh_max) = match size_bounds(store, left.height, left.height_var) {
        Some(b) => b,
        None => {
            return false;
        },
    };
    let (rw_min, rw_max) = match size_bounds(store, right.width, right.width_var) {
        Some(b) => b,
        None => {
            return false;
        },
    };
    let (rh_min, rh_max) = match size_bounds(store, right.height, right.height_var) {
        Some(b) => b,
        None => {
            return false;
        },
    };
    let left_right = lx_max as i64 + lw_max as i64 <= rx_min as i64;
    let right_left = rx_max as i64 + rw_max as i64 <= lx_min as i64;
    let left_above = ly_max as i64 + lh_max as i64 <= ry_min as i64;
    let right_above = ry_max as i64 + rh_max as i64 <= ly_min as i64;
    if left_right || right_left || left_above || right_above {
        return false;
    }
    let mut changed = false;
    if lx_min as i64 + lw_min as i64 > rx_max as i64 && rx_min as i64 + rw_min as i64 > lx_max as i64 {
        let gap = if lh_min <= rh_min { lh_min } else { rh_min };
        let b1 = clamp_i32(clamp_i32(ry_max as i64 - lh_max as i64) as i64 + 1);
        changed = cut_below_if(store, ly_max as i64 + gap as i64 > ry_min as i64, left.y, b1, changed, Ghost(s));
        let b2 = clamp_i32(clamp_i32(ly_max as i64 - rh_max as i64) as i64 + 1);
        changed = cut_below_if(store, ry_max as i64 + gap as i64 > ly_min as i64, right.y, b2, changed, Ghost(s));
    }
    if ly_min as i64 + lh_min as i64 > ry_max as i64 && ry_min as i64 + rh_min as i64 > ly_max as i64 {
        let gap = if lw_min <= rw_min { lw_min } else { rw_min };
        let b1 = clamp_i32(clamp_i32(rx_max as i64 - lw_max as i64) as i64 + 1);
        changed = cut_below_if(store, lx_max as i64 + gap as i64 > rx_min as i64, left.x, b1, changed, Ghost(s));
        let b2 = clamp_i32(clamp_i32(lx_max as i64 - rw_max as i64) as i64 + 1);
        changed = cut_below_if(store, rx_max as i64 + gap as i64 > lx_min as i64, right.x, b2, changed, Ghost(s));
    }
    changed
}


/// The variables of one rectangle: `x`, `y`, then the size variables it has.
pub open spec fn rect_vars(r: RectangleSpec) -> Seq<VariableId> {
    let w = match r.width_var {
        Some(v) => seq![v],
        None => Seq::<VariableId>::empty(),
    };
    let h = match r.height_var {
        Some(v) => seq![v],
        None => Seq::<VariableId>::empty(),
    };
    seq![r.x, r.y] + w + h
}

/// The variables of all rectangles, rectangle by rectangle.
pub open spec fn rects_vars(rects: Seq<RectangleSpec>) -> Seq<VariableId>
    decreases rects.len(),
{
    if rects.len() == 0 {
        Seq::<VariableId>::empty()
    } else {
        rects_vars(rects.drop_last()) + rect_vars(rects.last())
    }
}

/// Propagates pairwise non-overlap among rectangles of fixed or variable size.
pub struct DiffnPropagator {
    /// The rectangles.
    pub rectangles: Vec<RectangleSpec>,
    /// Their variables, rectangle by rectangle.
    pub watched: Vec<VariableId>,
}

impl DiffnPropagator {
    /// Creates a propagator over `rectangles`.
    pub fn new(rectangles: Vec<RectangleSpec>) -> (p: Self)
        ensures
            p.rectangles@ == rectangles@,
            p.watched@ == rects_vars(rectangles@),
    {
        let mut watched: Vec<VariableId> = Vec::new();
        let mut i: usize = 0;
        while i < rectangles.len()
            invariant
                0 <= i <= rectangles@.len(),
                watched@ == rects_vars(rectangles@.take(i as int)),
            decreases rectangles@.len() - i,
        {
            let rect = rectangles[i];
            let ghost before = watched@;
            watched.push(rect.x);
            watched.push(rect.y);
            match rect.width_var {
                Some(w) => watched.push(w),
                None => {},
            }
            match rect.height_var {
                Some(h) => watched.push(h),
                None => {},
            }
            proof {
                assert(rectangles@.take(i + 1).drop_last() =~= rectangles@.take(i as int));
                assert(watched@ =~= before + rect_vars(rect));
            }
            i = i + 1;
        }
        proof {
            assert(rectangles@.take(i as int) =~= rectangles@);
        }
        DiffnPropagator { rectangles, watched }
    }

    /// The variables whose domains this propagator reads.
    pub fn watched_variables(&self) -> (w: &Vec<VariableId>)
        ensures
            w@ == self.watched@,
    {
        &self.watched
    }

    /// Scheduling priority: propagators with a lower number run first.
    pub fn priority(&self) -> (p: u32)
        ensures
            p == 24,
    {
        24
    }

    /// Pushes apart every pair of rectangles in order (see [`diffn_rows`]); fails when a
    /// coordinate or size domain of a rectangle is empty afterwards.
    pub fn propagate(&mut self, store: &mut DomainStore) -> (status: PropagationStatus)
        requires
            forall|i: int| 0 <= i < old(self).rectangles@.len() ==> rect_in_range(#[trigger] old(self).rectangles@[i], old(store)@.len()),
        ensures
            *final(self) == *old(self),
            final(store)@ == diffn_rows(old(store)@, old(self).rectangles@, 0),
            no_forced_overlap(old(store)@, old(self).rectangles@) ==> final(store)@ == old(store)@,
            status == (if some_rect_empty(final(store)@, old(self).rectangles@) {
                PropagationStatus::Failure
            } else if final(store)@ != old(store)@ {
                PropagationStatus::OkChanged
            } else {
                PropagationStatus::OkNoChange
            }),
    {
        let ghost s0 = store@;
        let ghost rects = self.rectangles@;
        let count = self.rectangles.len();
        let mut changed = false;
        let mut left: usize = 0;
        proof {
            assert(narrows(s0, s0));
        }
        while left < count
            invariant
                0 <= left <= count,
                count == rects.len(),
                rects == self.rectangles@,
                store@.len() == s0.len(),
                forall|i: int| 0 <= i < rects.len() ==> rect_in_range(#[trigger] rects[i], s0.len()),
                diffn_rows(store@, rects, left as int) == diffn_rows(s0, rects, 0),
                narrows(s0, store@),
                changed == (store@ != s0),
            decreases count - left,
        {
            let mut right: usize = left + 1;
            while right < count
                invariant
                    left < count,
                    left + 1 <= right <= count,
                    count == rects.len(),
                    rects == self.rectangles@,
                    store@.len() == s0.len(),
                    forall|i: int| 0 <= i < rects.len() ==> rect_in_range(#[trigger] rects[i], s0.len()),
                    diffn_rows(diffn_row(store@, rects, left as int, right as int), rects, left + 1) == diffn_rows(s0, rects, 0),
                    narrows(s0, store@),
                    changed == (store@ != s0),
                decreases count - right,
            {
                let ghost t = store@;
                let step = propagate_pair(store, self.rectangles[left], self.rectangles[right]);
                proof {
                    lemma_narrow_step(s0, t, store@, changed, step);
                }
                changed = changed || step;
                right = right + 1;
            }
            left = left + 1;
        }
        proof {
            if no_forced_overlap(s0, rects) {
                law_diffn_unforced_unchanged(s0, rects);
            }
        }
        let mut empty = false;
        let mut i: usize = 0;
        while i < count
            invariant
                0 <= i <= count,
                count == rects.len(),
                rects == self.rectangles@,
                forall|k: int| 0 <= k < rects.len() ==> rect_in_range(#[trigger] rects[k], store@.len()),
                empty == exists|k: int|
                    0 <= k < i && {
                        let r = #[trigger] rects[k];
                        ||| store@[r.x.index as int].is_empty()
                        ||| store@[r.y.index as int].is_empty()
                        ||| (r.width_var matches Some(w) && store@[w.index as int].is_empty())
                        ||| (r.height_var matches Some(h) && store@[h.index as int].is_empty())
                    },
            decreases count - i,
        {
            let rect = self.rectangles[i];
            let mut bad = store.is_empty(rect.x) || store.is_empty(rect.y);
            match rect.width_var {
                Some(w) => {
                    if store.is_empty(w) {
                        bad = true;
                    }
                },
                None => {},
            }
            match rect.height_var {
                Some(h) => {
                    if store.is_empty(h) {
                        bad = true;
                    }
                },
                None => {},
            }
            proof {
                assert(rects[i as int] == rect);
            }
            empty = empty || bad;
            i = i + 1;
        }
        if empty {
            PropagationStatus::Failure
        } else if changed {
            PropagationStatus::OkChanged
        } else {
            PropagationStatus::OkNoChange
        }
    }
}

} // verus!
