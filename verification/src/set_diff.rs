//! Propagation of `result == left \ right` for set variables.
use vstd::prelude::*;

use crate::domain::{PropagationStatus, VariableId};
use crate::set_domain::{
    add_glb, count_outside, cut_lub, force_all_in, force_in_outside, force_out_missing, lemma_set_narrow_step,
    law_empty_set_domain_has_no_member, lemma_set_narrows_refl, lemma_set_update_narrows, set_domain_empty, set_member,
    set_narrows, tighten, values_of,
    SetDomainView, SetStore,
};
use crate::set_eq::{copy_values, nat_max, nat_min};

verus! {

/// Some domain among those at `a`, `b` and `r` admits no set.
pub open spec fn any_empty(s: Seq<SetDomainView>, a: int, b: int, r: int) -> bool {
    set_domain_empty(s[a]) || set_domain_empty(s[b]) || set_domain_empty(s[r])
}

/// Store after the first bound phase, every set read from `s`: the result's forced
/// values enter `left` and leave `right`, `right`'s forced values leave the result,
/// forced values of `left` outside `right`'s upper bound enter the result, and values
/// outside `left`'s upper bound leave it.
pub open spec fn diff_bounds(s: Seq<SetDomainView>, a: int, b: int, r: int) -> Seq<SetDomainView> {
    let p1 = cut_lub(add_glb(s, a, s[r].glb), b, s[r].glb);
    let p2 = cut_lub(p1, r, s[b].glb);
    let p3 = add_glb(p2, r, s[a].glb.difference(s[b].lub));
    cut_lub(p3, r, s[r].lub.difference(s[a].lub))
}

/// Store after the second bound phase, every set read from `s`: forced values of
/// `left` that the result cannot hold enter `right`, and values of `left` that neither
/// the result nor `right` can hold leave `left`.
pub open spec fn diff_cover(s: Seq<SetDomainView>, a: int, b: int, r: int) -> Seq<SetDomainView> {
    let q1 = add_glb(s, b, s[a].glb.difference(s[r].lub));
    cut_lub(q1, a, s[a].lub.difference(s[r].lub).difference(s[b].lub))
}

/// `x - y`, or 0 below it.
pub open spec fn sat_sub(x: nat, y: nat) -> nat {
    if x >= y { (x - y) as nat } else { 0 }
}

/// `x + y`, or the greatest `usize` above it.
pub open spec fn sat_add(x: nat, y: nat) -> nat {
    if x + y > usize::MAX { usize::MAX as nat } else { x + y }
}

/// Least cardinality of the result.
pub open spec fn diff_result_min(l: SetDomainView, rt: SetDomainView, res: SetDomainView) -> nat {
    nat_max(
        nat_max(nat_max(res.card_min, res.glb.len()), l.glb.difference(rt.lub).len()),
        sat_sub(l.card_min, rt.card_max),
    )
}

/// Greatest cardinality of the result.
pub open spec fn diff_result_max(l: SetDomainView, rt: SetDomainView, res: SetDomainView) -> nat {
    nat_min(nat_min(nat_min(res.card_max, l.card_max), l.lub.difference(rt.glb).len()), res.lub.len())
}

/// Least cardinality of `left`, given the least cardinality `rmin` of the result.
pub open spec fn diff_left_min(l: SetDomainView, res: SetDomainView, rmin: nat) -> nat {
    nat_max(nat_max(l.card_min, sat_add(rmin, l.glb.difference(res.lub).len())), l.glb.len())
}

/// Greatest cardinality of `left`, given the greatest cardinality `rmax` of the result.
pub open spec fn diff_left_max(l: SetDomainView, rt: SetDomainView, rmax: nat) -> nat {
    nat_min(nat_min(l.card_max, sat_add(rmax, rt.card_max)), l.lub.len())
}

/// Least cardinality of `right`.
pub open spec fn diff_right_min(l: SetDomainView, rt: SetDomainView, res: SetDomainView) -> nat {
    nat_max(nat_max(rt.card_min, l.glb.difference(res.lub).len()), rt.glb.len())
}

/// Greatest cardinality of `right`.
pub open spec fn diff_right_max(rt: SetDomainView) -> nat {
    nat_min(rt.card_max, rt.lub.len())
}

/// Status at the end of a propagation that took the store from `s0` to `t`.
pub open spec fn diff_final_status(s0: Seq<SetDomainView>, t: Seq<SetDomainView>, a: int, b: int, r: int) -> PropagationStatus {
    if any_empty(t, a, b, r) {
        PropagationStatus::Failure
    } else if t != s0 {
        PropagationStatus::OkChanged
    } else {
        PropagationStatus::OkNoChange
    }
}

/// Store and status after the cardinality phase on the store `s`, which went through
/// the bound phases from `s0`.
pub open spec fn diff_cards(s0: Seq<SetDomainView>, s: Seq<SetDomainView>, a: int, b: int, r: int) -> (
    Seq<SetDomainView>,
    PropagationStatus,
) {
    let l = s[a];
    let rt = s[b];
    let res = s[r];
    let rmin = diff_result_min(l, rt, res);
    let rmax = diff_result_max(l, rt, res);
    if rmin > rmax {
        (s, PropagationStatus::Failure)
    } else {
        let t1 = tighten(s, r, rmin, rmax);
        let lmin = diff_left_min(l, res, rmin);
        let lmax = diff_left_max(l, rt, rmax);
        if lmin > lmax {
            (t1, PropagationStatus::Failure)
        } else {
            let t2 = tighten(t1, a, lmin, lmax);
            let bmin = diff_right_min(l, rt, res);
            let bmax = diff_right_max(rt);
            if bmin > bmax {
                (t2, PropagationStatus::Failure)
            } else {
                let t3 = tighten(t2, b, bmin, bmax);
                (t3, diff_final_status(s0, t3, a, b, r))
            }
        }
    }
}

/// Store and status after propagating `result == left \ right` on `s0`, where `left`,
/// `right` and `result` are at `a`, `b` and `r`.
pub open spec fn set_diff_outcome(s0: Seq<SetDomainView>, a: int, b: int, r: int) -> (
    Seq<SetDomainView>,
    PropagationStatus,
) {
    if any_empty(s0, a, b, r) {
        (s0, PropagationStatus::Failure)
    } else {
        let s1 = diff_bounds(s0, a, b, r);
        if any_empty(s1, a, b, r) {
            (s1, PropagationStatus::Failure)
        } else {
            let s2 = diff_cover(s1, a, b, r);
            if any_empty(s2, a, b, r) {
                (s2, PropagationStatus::Failure)
            } else {
                diff_cards(s0, s2, a, b, r)
            }
        }
    }
}

proof fn lemma_add_glb_narrows(s: Seq<SetDomainView>, k: int, x: Set<int>)
    requires
        0 <= k < s.len(),
    ensures
        set_narrows(s, add_glb(s, k, x)),
{
    lemma_set_update_narrows(s, k, SetDomainView { glb: s[k].glb.union(x), ..s[k] });
}

proof fn lemma_cut_lub_narrows(s: Seq<SetDomainView>, k: int, y: Set<int>)
    requires
        0 <= k < s.len(),
    ensures
        set_narrows(s, cut_lub(s, k, y)),
{
    lemma_set_update_narrows(s, k, SetDomainView { lub: s[k].lub.difference(y), ..s[k] });
}

proof fn lemma_narrows_chain(a: Seq<SetDomainView>, b: Seq<SetDomainView>, c: Seq<SetDomainView>)
    requires
        set_narrows(a, b),
        set_narrows(b, c),
    ensures
        set_narrows(a, c),
{
    lemma_set_narrow_step(a, b, c, b != a, c != b);
}

/// Propagating set difference only narrows: every domain's lower bound grows, its upper
/// bound shrinks and its cardinality range tightens, whether or not the three variables
/// are distinct.
pub proof fn law_set_diff_narrows(s0: Seq<SetDomainView>, a: int, b: int, r: int)
    requires
        0 <= a < s0.len() && 0 <= b < s0.len() && 0 <= r < s0.len(),
    ensures
        set_narrows(s0, set_diff_outcome(s0, a, b, r).0),
{
    lemma_set_narrows_refl(s0);
    if !any_empty(s0, a, b, r) {
        let q1 = add_glb(s0, a, s0[r].glb);
        lemma_add_glb_narrows(s0, a, s0[r].glb);
        let p1 = cut_lub(q1, b, s0[r].glb);
        lemma_cut_lub_narrows(q1, b, s0[r].glb);
        lemma_narrows_chain(s0, q1, p1);
        let p2 = cut_lub(p1, r, s0[b].glb);
        lemma_cut_lub_narrows(p1, r, s0[b].glb);
        lemma_narrows_chain(s0, p1, p2);
        let p3 = add_glb(p2, r, s0[a].glb.difference(s0[b].lub));
        lemma_add_glb_narrows(p2, r, s0[a].glb.difference(s0[b].lub));
        lemma_narrows_chain(s0, p2, p3);
        let s1 = cut_lub(p3, r, s0[r].lub.difference(s0[a].lub));
        lemma_cut_lub_narrows(p3, r, s0[r].lub.difference(s0[a].lub));
        lemma_narrows_chain(s0, p3, s1);
        assert(s1 == diff_bounds(s0, a, b, r));
        if !any_empty(s1, a, b, r) {
            let c1 = add_glb(s1, b, s1[a].glb.difference(s1[r].lub));
            lemma_add_glb_narrows(s1, b, s1[a].glb.difference(s1[r].lub));
            lemma_narrows_chain(s0, s1, c1);
            let s2 = cut_lub(c1, a, s1[a].lub.difference(s1[r].lub).difference(s1[b].lub));
            lemma_cut_lub_narrows(c1, a, s1[a].lub.difference(s1[r].lub).difference(s1[b].lub));
            lemma_narrows_chain(s0, c1, s2);
            assert(s2 == diff_cover(s1, a, b, r));
            if !any_empty(s2, a, b, r) {
                let l = s2[a];
                let rt = s2[b];
                let res = s2[r];
                let rmin = diff_result_min(l, rt, res);
                let rmax = diff_result_max(l, rt, res);
                if rmin <= rmax {
                    let t1 = tighten(s2, r, rmin, rmax);
                    lemma_tighten_narrows(s2, r, rmin, rmax);
                    lemma_narrows_chain(s0, s2, t1);
                    let lmin = diff_left_min(l, res, rmin);
                    let lmax = diff_left_max(l, rt, rmax);
                    if lmin <= lmax {
                        let t2 = tighten(t1, a, lmin, lmax);
                        lemma_tighten_narrows(t1, a, lmin, lmax);
                        lemma_narrows_chain(s0, t1, t2);
                        let bmin = diff_right_min(l, rt, res);
                        let bmax = diff_right_max(rt);
                        if bmin <= bmax {
                            let t3 = tighten(t2, b, bmin, bmax);
                            lemma_tighten_narrows(t2, b, bmin, bmax);
                            lemma_narrows_chain(s0, t2, t3);
                        }
                    }
                }
            }
        }
    }
}

/// The sets `x`, `y` and `z` are admitted by the domains at `a`, `b` and `r` of `s`.
pub open spec fn diff_members(s: Seq<SetDomainView>, a: int, b: int, r: int, x: Set<int>, y: Set<int>, z: Set<int>) -> bool {
    set_member(s[a], x) && set_member(s[b], y) && set_member(s[r], z)
}

/// The upper bounds at `a`, `b` and `r` of `s` are finite and no larger than a `usize`.
pub open spec fn diff_lubs_fit(s: Seq<SetDomainView>, a: int, b: int, r: int) -> bool {
    &&& s[a].lub.finite() && s[b].lub.finite() && s[r].lub.finite()
    &&& s[a].lub.len() <= usize::MAX
}

proof fn lemma_diff_bounds_keep(s: Seq<SetDomainView>, a: int, b: int, r: int, x: Set<int>, y: Set<int>)
    requires
        0 <= a < s.len() && 0 <= b < s.len() && 0 <= r < s.len(),
        a != b && a != r && b != r,
        diff_members(s, a, b, r, x, y, x.difference(y)),
    ensures
        diff_members(diff_bounds(s, a, b, r), a, b, r, x, y, x.difference(y)),
        diff_lubs_fit(s, a, b, r) ==> diff_lubs_fit(diff_bounds(s, a, b, r), a, b, r),
{
    let z = x.difference(y);
    let t = diff_bounds(s, a, b, r);
    assert(t[a].glb =~= s[a].glb.union(s[r].glb));
    assert(t[a].lub == s[a].lub);
    assert(t[b].lub =~= s[b].lub.difference(s[r].glb));
    assert(t[b].glb == s[b].glb);
    assert(t[r].glb =~= s[r].glb.union(s[a].glb.difference(s[b].lub)));
    assert(t[r].lub =~= s[r].lub.difference(s[b].glb).difference(s[r].lub.difference(s[a].lub)));
    assert(set_member(t[a], x));
    assert(set_member(t[b], y));
    assert(set_member(t[r], z));
    if diff_lubs_fit(s, a, b, r) {
        assert(t[r].lub.subset_of(s[r].lub));
        assert(t[b].lub.subset_of(s[b].lub));
    }
}

proof fn lemma_diff_cover_keep(s: Seq<SetDomainView>, a: int, b: int, r: int, x: Set<int>, y: Set<int>)
    requires
        0 <= a < s.len() && 0 <= b < s.len() && 0 <= r < s.len(),
        a != b && a != r && b != r,
        diff_members(s, a, b, r, x, y, x.difference(y)),
    ensures
        diff_members(diff_cover(s, a, b, r), a, b, r, x, y, x.difference(y)),
        diff_lubs_fit(s, a, b, r) ==> diff_lubs_fit(diff_cover(s, a, b, r), a, b, r),
{
    let z = x.difference(y);
    let t = diff_cover(s, a, b, r);
    assert(t[b].glb =~= s[b].glb.union(s[a].glb.difference(s[r].lub)));
    assert(t[a].lub =~= s[a].lub.difference(s[a].lub.difference(s[r].lub).difference(s[b].lub)));
    assert(set_member(t[a], x));
    assert(set_member(t[b], y));
    assert(set_member(t[r], z));
    if diff_lubs_fit(s, a, b, r) {
        assert(t[a].lub.subset_of(s[a].lub));
        vstd::set_lib::lemma_len_subset(t[a].lub, s[a].lub);
    }
}

proof fn lemma_diff_cards_keep(s0: Seq<SetDomainView>, s: Seq<SetDomainView>, a: int, b: int, r: int, x: Set<int>, y: Set<int>)
    requires
        0 <= a < s.len() && 0 <= b < s.len() && 0 <= r < s.len(),
        a != b && a != r && b != r,
        diff_members(s, a, b, r, x, y, x.difference(y)),
        diff_lubs_fit(s, a, b, r),
    ensures
        diff_members(diff_cards(s0, s, a, b, r).0, a, b, r, x, y, x.difference(y)),
        diff_cards(s0, s, a, b, r).1 != PropagationStatus::Failure,
{
    let z = x.difference(y);
    let (l, rt, res) = (s[a], s[b], s[r]);
    vstd::set_lib::lemma_len_subset(x, l.lub);
    vstd::set_lib::lemma_len_subset(y, rt.lub);
    vstd::set_lib::lemma_len_subset(z, res.lub);
    vstd::set_lib::lemma_len_subset(z, x);
    vstd::set_lib::lemma_len_subset(res.glb, z);
    vstd::set_lib::lemma_len_subset(rt.glb, y);
    vstd::set_lib::lemma_len_subset(l.glb, x);
    vstd::set_lib::lemma_len_subset(l.glb.difference(rt.lub), z);
    vstd::set_lib::lemma_len_subset(z, l.lub.difference(rt.glb));
    vstd::set_lib::lemma_len_union(z, y);
    assert(x.subset_of(z.union(y)));
    vstd::set_lib::lemma_len_subset(x, z.union(y));
    let rmin = diff_result_min(l, rt, res);
    let rmax = diff_result_max(l, rt, res);
    assert(rmin <= z.len() <= rmax);
    let t1 = tighten(s, r, rmin, rmax);
    assert(set_member(t1[r], z));
    let d = l.glb.difference(res.lub);
    vstd::set_lib::lemma_len_subset(d, y);
    assert(z.disjoint(d));
    vstd::set_lib::lemma_set_disjoint_lens(z, d);
    assert((z + d).subset_of(x));
    vstd::set_lib::lemma_len_subset(z + d, x);
    let lmin = diff_left_min(l, res, rmin);
    let lmax = diff_left_max(l, rt, rmax);
    assert(lmin <= x.len() <= lmax);
    let t2 = tighten(t1, a, lmin, lmax);
    assert(set_member(t2[a], x));
    let bmin = diff_right_min(l, rt, res);
    let bmax = diff_right_max(rt);
    assert(bmin <= y.len() <= bmax);
    let t3 = tighten(t2, b, bmin, bmax);
    assert(diff_members(t3, a, b, r, x, y, z));
    assert(t3[a].lub == l.lub && t3[b].lub == rt.lub && t3[r].lub == res.lub);
    if set_domain_empty(t3[a]) {
        law_empty_set_domain_has_no_member(t3[a], x);
    }
    if set_domain_empty(t3[b]) {
        law_empty_set_domain_has_no_member(t3[b], y);
    }
    if set_domain_empty(t3[r]) {
        law_empty_set_domain_has_no_member(t3[r], z);
    }
}

/// Sets `x` and `y` admitted by `left` and `right`, with `x \ y` admitted by the
/// result, all stay admitted through `result == left \ right`, and rule out its
/// failure.
pub proof fn law_set_diff_keeps_solutions(s0: Seq<SetDomainView>, a: int, b: int, r: int, x: Set<int>, y: Set<int>)
    requires
        0 <= a < s0.len() && 0 <= b < s0.len() && 0 <= r < s0.len(),
        a != b && a != r && b != r,
        diff_lubs_fit(s0, a, b, r),
        diff_members(s0, a, b, r, x, y, x.difference(y)),
    ensures
        diff_members(set_diff_outcome(s0, a, b, r).0, a, b, r, x, y, x.difference(y)),
        set_diff_outcome(s0, a, b, r).1 != PropagationStatus::Failure,
{
    let z = x.difference(y);
    if set_domain_empty(s0[a]) {
        law_empty_set_domain_has_no_member(s0[a], x);
    }
    if set_domain_empty(s0[b]) {
        law_empty_set_domain_has_no_member(s0[b], y);
    }
    if set_domain_empty(s0[r]) {
        law_empty_set_domain_has_no_member(s0[r], z);
    }
    lemma_diff_bounds_keep(s0, a, b, r, x, y);
    let s1 = diff_bounds(s0, a, b, r);
    if set_domain_empty(s1[a]) {
        law_empty_set_domain_has_no_member(s1[a], x);
    }
    if set_domain_empty(s1[b]) {
        law_empty_set_domain_has_no_member(s1[b], y);
    }
    if set_domain_empty(s1[r]) {
        law_empty_set_domain_has_no_member(s1[r], z);
    }
    lemma_diff_cover_keep(s1, a, b, r, x, y);
    let s2 = diff_cover(s1, a, b, r);
    if set_domain_empty(s2[a]) {
        law_empty_set_domain_has_no_member(s2[a], x);
    }
    if set_domain_empty(s2[b]) {
        law_empty_set_domain_has_no_member(s2[b], y);
    }
    if set_domain_empty(s2[r]) {
        law_empty_set_domain_has_no_member(s2[r], z);
    }
    lemma_diff_cards_keep(s0, s2, a, b, r, x, y);
}

/// Removing nothing from an upper bound leaves the domains as they were.
proof fn lemma_cut_lub_none(s: Seq<SetDomainView>, k: int, y: Set<int>)
    requires
        0 <= k < s.len(),
        y.disjoint(s[k].lub) || y == Set::<int>::empty(),
    ensures
        cut_lub(s, k, y) == s,
{
    assert(s[k].lub.difference(y) =~= s[k].lub);
    let d = SetDomainView { lub: s[k].lub, ..s[k] };
    assert(d == s[k]);
    assert(cut_lub(s, k, y) =~= s);
}

/// The values of an empty list.
proof fn lemma_values_of_empty(r: Seq<i32>)
    requires
        r.len() == 0,
    ensures
        values_of(r) == Set::<int>::empty(),
{
    assert(r.map_values(|v: i32| v as int) =~= Seq::<int>::empty());
    assert(values_of(r) =~= Set::<int>::empty());
}

/// The first bound phase (see [`diff_bounds`]); returns whether a domain changed.
fn diff_bounds_phase(sets: &mut SetStore, a: VariableId, b: VariableId, r: VariableId) -> (changed: bool)
    requires
        a.index < old(sets)@.len(),
        b.index < old(sets)@.len(),
        r.index < old(sets)@.len(),
    ensures
        final(sets)@ == diff_bounds(old(sets)@, a.index as int, b.index as int, r.index as int),
        changed == (final(sets)@ != old(sets)@),
        set_narrows(old(sets)@, final(sets)@),
{
    let ghost s0 = sets@;
    let ghost ai = a.index as int;
    let ghost bi = b.index as int;
    let ghost ri = r.index as int;
    let rg = copy_values(sets.domain(r).glb());
    let bg = copy_values(sets.domain(b).glb());
    let ag = copy_values(sets.domain(a).glb());
    let bl = copy_values(sets.domain(b).lub());
    let rl = copy_values(sets.domain(r).lub());
    let al = copy_values(sets.domain(a).lub());
    let none: Vec<i32> = Vec::new();
    proof {
        lemma_values_of_empty(none@);
        assert(s0[ri].glb.difference(Set::<int>::empty()) =~= s0[ri].glb);
        assert(s0[bi].glb.difference(Set::<int>::empty()) =~= s0[bi].glb);
        lemma_set_narrows_refl(s0);
    }
    let c1 = force_all_in(sets, a, &rg);
    let ghost t1 = sets@;
    let c2 = force_out_missing(sets, b, &rg, &none);
    let ghost t2 = sets@;
    proof {
        lemma_set_narrow_step(s0, t1, t2, c1, c2);
    }
    let c3 = force_out_missing(sets, r, &bg, &none);
    let ghost t3 = sets@;
    proof {
        lemma_set_narrow_step(s0, t2, t3, c1 || c2, c3);
    }
    let c4 = force_in_outside(sets, r, &ag, &bl);
    let ghost t4 = sets@;
    proof {
        lemma_set_narrow_step(s0, t3, t4, c1 || c2 || c3, c4);
    }
    let c5 = force_out_missing(sets, r, &rl, &al);
    proof {
        lemma_set_narrow_step(s0, t4, sets@, c1 || c2 || c3 || c4, c5);
    }
    c1 || c2 || c3 || c4 || c5
}


/// The values of `vals` that are not in `excl`, in their order.
fn values_outside(vals: &Vec<i32>, excl: &Vec<i32>) -> (out: Vec<i32>)
    ensures
        values_of(out@) == values_of(vals@).difference(values_of(excl@)),
{
    let ghost e = values_of(excl@);
    let mut out: Vec<i32> = Vec::new();
    let mut k: usize = 0;
    proof {
        assert(vals@.take(0).map_values(|v: i32| v as int) =~= Seq::<int>::empty());
        lemma_values_of_empty(out@);
        assert(values_of(vals@.take(0)).difference(e) =~= Set::<int>::empty());
    }
    while k < vals.len()
        invariant
            0 <= k <= vals@.len(),
            e == values_of(excl@),
            values_of(out@) == values_of(vals@.take(k as int)).difference(e),
        decreases vals@.len() - k,
    {
        let v = vals[k];
        let inside = crate::set_domain::vec_has(excl, v);
        proof {
            crate::set_domain::lemma_values_of_has(excl@, v as int);
            assert(vals@.take(k + 1).map_values(|u: i32| u as int) =~= vals@.take(k as int).map_values(|u: i32| u as int).push(v as int));
            crate::set_domain::lemma_to_set_push(vals@.take(k as int).map_values(|u: i32| u as int), v as int);
        }
        if !inside {
            let ghost before = out@;
            out.push(v);
            proof {
                assert(out@.map_values(|u: i32| u as int) =~= before.map_values(|u: i32| u as int).push(v as int));
                crate::set_domain::lemma_to_set_push(before.map_values(|u: i32| u as int), v as int);
                assert(values_of(out@) =~= values_of(vals@.take(k + 1)).difference(e));
            }
        } else {
            proof {
                assert(values_of(vals@.take(k + 1)).difference(e) =~= values_of(vals@.take(k as int)).difference(e));
            }
        }
        k = k + 1;
    }
    proof {
        assert(vals@.take(k as int) =~= vals@);
    }
    out
}

/// The second bound phase (see [`diff_cover`]); returns whether a domain changed.
fn diff_cover_phase(sets: &mut SetStore, a: VariableId, b: VariableId, r: VariableId) -> (changed: bool)
    requires
        a.index < old(sets)@.len(),
        b.index < old(sets)@.len(),
        r.index < old(sets)@.len(),
    ensures
        final(sets)@ == diff_cover(old(sets)@, a.index as int, b.index as int, r.index as int),
        changed == (final(sets)@ != old(sets)@),
        set_narrows(old(sets)@, final(sets)@),
{
    let ghost s0 = sets@;
    let ag = copy_values(sets.domain(a).glb());
    let al = copy_values(sets.domain(a).lub());
    let bl = copy_values(sets.domain(b).lub());
    let rl = copy_values(sets.domain(r).lub());
    let unheld = values_outside(&al, &rl);
    proof {
        lemma_set_narrows_refl(s0);
    }
    let c1 = force_in_outside(sets, b, &ag, &rl);
    let ghost t1 = sets@;
    let c2 = force_out_missing(sets, a, &unheld, &bl);
    proof {
        lemma_set_narrow_step(s0, t1, sets@, c1, c2);
    }
    c1 || c2
}

/// Tightening a cardinality range with bounds it already meets changes nothing.
proof fn lemma_tighten_noop(s: Seq<SetDomainView>, k: int, mn: nat, mx: nat)
    requires
        0 <= k < s.len(),
        mn <= s[k].card_min,
        s[k].card_max <= mx,
    ensures
        tighten(s, k, mn, mx) == s,
{
    let d = SetDomainView { card_min: s[k].card_min, card_max: s[k].card_max, ..s[k] };
    assert(d == s[k]);
    assert(tighten(s, k, mn, mx) =~= s);
}

/// Tightening a cardinality range narrows the store, and changes it exactly when the
/// range changes.
proof fn lemma_tighten_narrows(s: Seq<SetDomainView>, k: int, mn: nat, mx: nat)
    requires
        0 <= k < s.len(),
    ensures
        set_narrows(s, tighten(s, k, mn, mx)),
        (tighten(s, k, mn, mx) != s) == (mn > s[k].card_min || mx < s[k].card_max),
{
    let t = tighten(s, k, mn, mx);
    lemma_set_update_narrows(s, k, t[k]);
    if mn > s[k].card_min || mx < s[k].card_max {
        assert(t[k] != s[k]);
    } else {
        lemma_tighten_noop(s, k, mn, mx);
    }
}


/// The larger of two sizes.
fn max_usize(x: usize, y: usize) -> (m: usize)
    ensures
        m == nat_max(x as nat, y as nat),
{
    if x >= y { x } else { y }
}

/// The smaller of two sizes.
fn min_usize(x: usize, y: usize) -> (m: usize)
    ensures
        m == nat_min(x as nat, y as nat),
{
    if x <= y { x } else { y }
}

/// The cardinality bounds that the cardinality phase computes on the store of `sets`:
/// those of the result, of `left` and of `right`, least first.
fn diff_card_bounds(sets: &SetStore, a: VariableId, b: VariableId, r: VariableId) -> (v: (usize, usize, usize, usize, usize, usize))
    requires
        a.index < sets@.len(),
        b.index < sets@.len(),
        r.index < sets@.len(),
    ensures
        ({
            let l = sets@[a.index as int];
            let rt = sets@[b.index as int];
            let res = sets@[r.index as int];
            &&& v.0 == diff_result_min(l, rt, res)
            &&& v.1 == diff_result_max(l, rt, res)
            &&& v.2 == diff_left_min(l, res, v.0 as nat)
            &&& v.3 == diff_left_max(l, rt, v.1 as nat)
            &&& v.4 == diff_right_min(l, rt, res)
            &&& v.5 == diff_right_max(rt)
        }),
{
    let a_cmin = sets.domain(a).card_min();
    let a_cmax = sets.domain(a).card_max();
    let a_glb_len = sets.domain(a).glb().len();
    let a_lub_len = sets.domain(a).lub().len();
    let b_cmin = sets.domain(b).card_min();
    let b_cmax = sets.domain(b).card_max();
    let b_glb_len = sets.domain(b).glb().len();
    let b_lub_len = sets.domain(b).lub().len();
    let r_cmin = sets.domain(r).card_min();
    let r_cmax = sets.domain(r).card_max();
    let r_glb_len = sets.domain(r).glb().len();
    let r_lub_len = sets.domain(r).lub().len();
    let left_minus_right_max = count_outside(sets.domain(a).lub(), sets.domain(b).glb());
    let glb_diff = count_outside(sets.domain(a).glb(), sets.domain(b).lub());
    let forced_outside_result = count_outside(sets.domain(a).glb(), sets.domain(r).lub());
    let result_card_min = max_usize(
        max_usize(max_usize(r_cmin, r_glb_len), glb_diff),
        a_cmin.saturating_sub(b_cmax),
    );
    let result_card_max = min_usize(min_usize(min_usize(r_cmax, a_cmax), left_minus_right_max), r_lub_len);
    let left_card_min = max_usize(
        max_usize(a_cmin, result_card_min.saturating_add(forced_outside_result)),
        a_glb_len,
    );
    let left_card_max = min_usize(min_usize(a_cmax, result_card_max.saturating_add(b_cmax)), a_lub_len);
    let right_card_min = max_usize(max_usize(b_cmin, forced_outside_result), b_glb_len);
    let right_card_max = min_usize(b_cmax, b_lub_len);
    (result_card_min, result_card_max, left_card_min, left_card_max, right_card_min, right_card_max)
}

/// Tightens the cardinality range of `var` to `mn..=mx` unless that is the range
/// `cur_min..=cur_max` read earlier, which the current range lies within; keeps the
/// running flag `changed` exact with respect to `s0`.
fn tighten_unless_same(
    sets: &mut SetStore,
    var: VariableId,
    mn: usize,
    mx: usize,
    cur_min: usize,
    cur_max: usize,
    changed: bool,
    Ghost(s0): Ghost<Seq<SetDomainView>>,
) -> (now_changed: bool)
    requires
        var.index < old(sets)@.len(),
        cur_min <= old(sets)@[var.index as int].card_min,
        old(sets)@[var.index as int].card_max <= cur_max,
        set_narrows(s0, old(sets)@),
        changed == (old(sets)@ != s0),
    ensures
        final(sets)@ == tighten(old(sets)@, var.index as int, mn as nat, mx as nat),
        set_narrows(s0, final(sets)@),
        now_changed == (final(sets)@ != s0),
{
    let ghost t = sets@;
    proof {
        lemma_tighten_narrows(t, var.index as int, mn as nat, mx as nat);
    }
    if mn != cur_min || mx != cur_max {
        let step = sets.tighten_cardinality(var, mn, mx);
        proof {
            lemma_set_narrow_step(s0, t, sets@, changed, step);
        }
        changed || step
    } else {
        proof {
            lemma_tighten_noop(t, var.index as int, mn as nat, mx as nat);
        }
        changed
    }
}

/// The cardinality phase (see [`diff_cards`]) on a store that the bound phases took
/// from `s0`, with `changed` telling whether they changed it.
#[verifier::rlimit(30)]
fn diff_cards_phase(
    sets: &mut SetStore,
    a: VariableId,
    b: VariableId,
    r: VariableId,
    changed: bool,
    Ghost(s0): Ghost<Seq<SetDomainView>>,
) -> (status: PropagationStatus)
    requires
        a.index < old(sets)@.len(),
        b.index < old(sets)@.len(),
        r.index < old(sets)@.len(),
        set_narrows(s0, old(sets)@),
        changed == (old(sets)@ != s0),
    ensures
        (final(sets)@, status) == diff_cards(s0, old(sets)@, a.index as int, b.index as int, r.index as int),
{
    let ghost s = sets@;
    let ghost ai = a.index as int;
    let ghost bi = b.index as int;
    let ghost ri = r.index as int;
    let (result_card_min, result_card_max, left_card_min, left_card_max, right_card_min, right_card_max) =
        diff_card_bounds(sets, a, b, r);
    let a_cmin = sets.domain(a).card_min();
    let a_cmax = sets.domain(a).card_max();
    let b_cmin = sets.domain(b).card_min();
    let b_cmax = sets.domain(b).card_max();
    let r_cmin = sets.domain(r).card_min();
    let r_cmax = sets.domain(r).card_max();
    if result_card_min > result_card_max {
        return PropagationStatus::Failure;
    }
    let changed = tighten_unless_same(sets, r, result_card_min, result_card_max, r_cmin, r_cmax, changed, Ghost(s0));
    let ghost t1 = sets@;
    proof {
        lemma_tighten_narrows(s, ri, result_card_min as nat, result_card_max as nat);
    }
    if left_card_min > left_card_max {
        return PropagationStatus::Failure;
    }
    let changed = tighten_unless_same(sets, a, left_card_min, left_card_max, a_cmin, a_cmax, changed, Ghost(s0));
    let ghost t2 = sets@;
    proof {
        lemma_tighten_narrows(t1, ai, left_card_min as nat, left_card_max as nat);
    }
    if right_card_min > right_card_max {
        return PropagationStatus::Failure;
    }
    let changed = tighten_unless_same(sets, b, right_card_min, right_card_max, b_cmin, b_cmax, changed, Ghost(s0));
    if sets.domain(a).is_empty() || sets.domain(b).is_empty() || sets.domain(r).is_empty() {
        PropagationStatus::Failure
    } else if changed {
        PropagationStatus::OkChanged
    } else {
        PropagationStatus::OkNoChange
    }
}

/// Propagates `result == left \ right` for set variables.
pub struct SetDiffPropagator {
    /// The set values are taken from.
    pub left: VariableId,
    /// The set whose values are taken out.
    pub right: VariableId,
    /// The difference.
    pub result: VariableId,
}

impl SetDiffPropagator {
    /// Creates a propagator for `result == left \ right`.
    pub fn new(left: VariableId, right: VariableId, result: VariableId) -> (p: Self)
        ensures
            p.left == left,
            p.right == right,
            p.result == result,
    {
        SetDiffPropagator { left, right, result }
    }

    /// The variables whose domains this propagator reads: `left`, `right`, `result`.
    pub fn watched_variables(&self) -> (w: Vec<VariableId>)
        ensures
            w@ == seq![self.left, self.right, self.result],
    {
        let w = vec![self.left, self.right, self.result];
        proof {
            assert(w@ =~= seq![self.left, self.right, self.result]);
        }
        w
    }

    /// Runs the two bound phases and the cardinality phase of [`set_diff_outcome`],
    /// failing as soon as a domain admits no set or a cardinality range is empty.
    pub fn propagate(&mut self, sets: &mut SetStore) -> (status: PropagationStatus)
        requires
            old(self).left.index < old(sets)@.len(),
            old(self).right.index < old(sets)@.len(),
            old(self).result.index < old(sets)@.len(),
        ensures
            *final(self) == *old(self),
            (final(sets)@, status) == set_diff_outcome(
                old(sets)@,
                old(self).left.index as int,
                old(self).right.index as int,
                old(self).result.index as int,
            ),
            set_narrows(old(sets)@, final(sets)@),
    {
        proof {
            law_set_diff_narrows(sets@, self.left.index as int, self.right.index as int, self.result.index as int);
        }
        let a = self.left;
        let b = self.right;
        let r = self.result;
        let ghost s0 = sets@;
        if sets.domain(a).is_empty() || sets.domain(b).is_empty() || sets.domain(r).is_empty() {
            return PropagationStatus::Failure;
        }
        let c1 = diff_bounds_phase(sets, a, b, r);
        let ghost s1 = sets@;
        if sets.domain(a).is_empty() || sets.domain(b).is_empty() || sets.domain(r).is_empty() {
            return PropagationStatus::Failure;
        }
        let c2 = diff_cover_phase(sets, a, b, r);
        proof {
            lemma_set_narrow_step(s0, s1, sets@, c1, c2);
        }
        if sets.domain(a).is_empty() || sets.domain(b).is_empty() || sets.domain(r).is_empty() {
            return PropagationStatus::Failure;
        }
        diff_cards_phase(sets, a, b, r, c1 || c2, Ghost(s0))
    }
}

} // verus!
