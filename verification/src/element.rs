//! Propagation of `value == array[index]`.
use vstd::prelude::*;

use crate::domain::{
    between, greatest, least, lemma_greatest_is, lemma_least_is, lemma_narrow_step, lemma_narrows_trans,
    lemma_total_size_narrows, narrows, seq_has, total_size, DomainStore, PropagationStatus, VariableId,
};
use crate::equality::{equality_result, propagate_equal};
use crate::int_mod::is_fixed;
use crate::inverse::{some_var_empty, vars_in_range};
use crate::linear_scalar::{sorted_elems, sorted_listing};

verus! {

/// Store after the index is cut to the array's positions, a fixed index equates the
/// value with its element, and a fixed value keeps only the positions whose element may
/// take it.
pub open spec fn elem_index_step(s: Seq<Set<int>>, index: int, array: Seq<VariableId>, value: int) -> Seq<Set<int>> {
    let n = array.len() as int;
    let s1 = s.update(index, between(s[index], 0, n - 1));
    if is_fixed(s1[index]) && !(0 <= least(s1[index]) < n) {
        s1
    } else {
        let s2 = if is_fixed(s1[index]) {
            equality_result(s1, value, array[least(s1[index])].index as int)
        } else {
            s1
        };
        if is_fixed(s2[value]) {
            let val = least(s2[value]);
            s2.update(index, s2[index].filter(|i: int| 0 <= i < n && s2[array[i].index as int].contains(val)))
        } else {
            s2
        }
    }
}

/// Smallest and largest value over the non-empty domains of the elements at the first
/// `k` positions of `idxs`.
pub open spec fn elem_hull(s: Seq<Set<int>>, array: Seq<VariableId>, idxs: Seq<int>, k: nat) -> Option<(int, int)>
    decreases k,
{
    if k == 0 {
        None
    } else {
        let prev = elem_hull(s, array, idxs, (k - 1) as nat);
        let e = s[array[idxs[k - 1]].index as int];
        if e.is_empty() {
            prev
        } else {
            match prev {
                Some((a, b)) => Some((if least(e) < a { least(e) } else { a }, if greatest(e) > b { greatest(e) } else { b })),
                None => Some((least(e), greatest(e))),
            }
        }
    }
}

/// Store after an element and the value are cut to each other's bounds: the element to
/// the value's, then the value to the element's.
pub open spec fn elem_to_value(s: Seq<Set<int>>, e: int, v: int) -> Seq<Set<int>> {
    let s1 = if s[v].is_empty() { s } else { s.update(e, between(s[e], least(s[v]), greatest(s[v]))) };
    if s1[e].is_empty() { s1 } else { s1.update(v, between(s1[v], least(s1[e]), greatest(s1[e]))) }
}

/// Store after the elements at the first `k` positions of `idxs` are cut against the
/// value, in order.
pub open spec fn elems_to_value(s: Seq<Set<int>>, array: Seq<VariableId>, idxs: Seq<int>, v: int, k: nat) -> Seq<Set<int>>
    decreases k,
{
    if k == 0 {
        s
    } else {
        elem_to_value(elems_to_value(s, array, idxs, v, (k - 1) as nat), array[idxs[k - 1]].index as int, v)
    }
}

/// Store after a fixed index equates the value with its element; otherwise the value is
/// cut to the hull of the possible elements, and each possible element (in increasing
/// order of position) is cut against the value.
pub open spec fn elem_bounds_step(s: Seq<Set<int>>, index: int, array: Seq<VariableId>, value: int) -> Seq<Set<int>> {
    if is_fixed(s[index]) {
        equality_result(s, value, array[least(s[index])].index as int)
    } else {
        let idxs = sorted_elems(s[index]);
        let s1 = match elem_hull(s, array, idxs, idxs.len()) {
            Some((lo, hi)) => s.update(value, between(s[value], lo, hi)),
            None => s,
        };
        let idxs2 = sorted_elems(s1[index]);
        elems_to_value(s1, array, idxs2, value, idxs2.len())
    }
}

/// One round of element propagation.
pub open spec fn elem_round(s: Seq<Set<int>>, index: int, array: Seq<VariableId>, value: int) -> Seq<Set<int>> {
    elem_bounds_step(elem_index_step(s, index, array, value), index, array, value)
}

/// Store after `n` rounds.
pub open spec fn elem_rounds(s: Seq<Set<int>>, index: int, array: Seq<VariableId>, value: int, n: nat) -> Seq<Set<int>>
    decreases n,
{
    if n == 0 {
        s
    } else {
        elem_round(elem_rounds(s, index, array, value, (n - 1) as nat), index, array, value)
    }
}

/// Every value of `d` is a position of an array of length `n`.
pub open spec fn positions_in(d: Set<int>, n: int) -> bool {
    forall|i: int| d.contains(i) ==> 0 <= i < n
}

/// Cuts `left` and `right` to each other: see [`equality_result`].
pub fn tighten_equal(store: &mut DomainStore, left: VariableId, right: VariableId) -> (changed: bool)
    requires
        left.index < old(store)@.len(),
        right.index < old(store)@.len(),
    ensures
        final(store)@ == equality_result(old(store)@, left.index as int, right.index as int),
        changed == (final(store)@ != old(store)@),
        narrows(old(store)@, final(store)@),
{
    propagate_equal(store, left, right)
}

/// The values of `var` in increasing order, as a listing of its domain.
pub(crate) fn listing(store: &DomainStore, var: VariableId) -> (r: Vec<i32>)
    requires
        var.index < store@.len(),
    ensures
        r@.map_values(|v: i32| v as int) == sorted_elems(store@[var.index as int]),
        sorted_listing(r@.map_values(|v: i32| v as int), store@[var.index as int]),
{
    let values = store.values(var);
    proof {
        let d = store@[var.index as int];
        assert forall|x: int| seq_has(values@, x) <==> d.contains(x) by {
            if seq_has(values@, x) {
                let k = choose|k: int| 0 <= k < values@.len() && values@[k] == x;
                assert(d.contains(values@[k] as int));
            }
        }
        crate::linear_scalar::lemma_sorted_elems_of(values@, d);
    }
    values
}

/// Cuts `element` to the bounds of `value`, then `value` to the bounds of `element`
/// ([`elem_to_value`]); returns whether a domain changed.
pub fn propagate_element_to_value(store: &mut DomainStore, element: VariableId, value: VariableId) -> (changed: bool)
    requires
        element.index < old(store)@.len(),
        value.index < old(store)@.len(),
    ensures
        final(store)@ == elem_to_value(old(store)@, element.index as int, value.index as int),
        changed == (final(store)@ != old(store)@),
        narrows(old(store)@, final(store)@),
{
    let ghost s0 = store@;
    let mut changed = false;
    proof {
        assert(narrows(s0, s0));
    }
    match (store.min(value), store.max(value)) {
        (Some(v_min), Some(v_max)) => {
            proof {
                lemma_least_is(s0[value.index as int], v_min as int);
                lemma_greatest_is(s0[value.index as int], v_max as int);
            }
            changed = store.restrict(element, v_min, v_max);
        },
        _ => {},
    }
    let ghost s1 = store@;
    match (store.min(element), store.max(element)) {
        (Some(e_min), Some(e_max)) => {
            proof {
                lemma_least_is(s1[element.index as int], e_min as int);
                lemma_greatest_is(s1[element.index as int], e_max as int);
            }
            let step = store.restrict(value, e_min, e_max);
            proof {
                lemma_narrow_step(s0, s1, store@, changed, step);
            }
            changed = changed || step;
        },
        _ => {},
    }
    changed
}


/// Cuts the index to the array's positions, equates the value with the element of a
/// fixed index, and keeps only the positions that support a fixed value
/// ([`elem_index_step`]); returns whether a domain changed.
pub fn propagate_index(store: &mut DomainStore, index: VariableId, array: &Vec<VariableId>, value: VariableId) -> (changed: bool)
    requires
        index.index < old(store)@.len(),
        value.index < old(store)@.len(),
        vars_in_range(array@, old(store)@.len()),
        array@.len() <= i32::MAX,
    ensures
        final(store)@ == elem_index_step(old(store)@, index.index as int, array@, value.index as int),
        changed == (final(store)@ != old(store)@),
        narrows(old(store)@, final(store)@),
        positions_in(final(store)@[index.index as int], array@.len() as int),
{
    let ghost s0 = store@;
    let ghost n = array@.len() as int;
    let ghost ii = index.index as int;
    let max_index = array.len() as i32 - 1;
    let mut changed = store.restrict(index, 0, max_index);
    let ghost s1 = store@;
    proof {
        assert(positions_in(s1[ii], n));
    }
    match store.fixed_value(index) {
        Some(idx) => {
            proof {
                assert(s1[ii].contains(idx as int));
                assert(crate::domain::is_least(s1[ii], idx as int));
                lemma_least_is(s1[ii], idx as int);
            }
            if !(0 <= idx && (idx as usize) < array.len()) {
                return changed;
            }
            let element = array[idx as usize];
            let step = tighten_equal(store, value, element);
            proof {
                lemma_narrow_step(s0, s1, store@, changed, step);
            }
            changed = changed || step;
        },
        None => {
            proof {
                assert(!is_fixed(s1[ii]));
                assert(narrows(s1, s1));
            }
        },
    }
    let ghost s2 = store@;
    proof {
        assert(s2[ii].subset_of(s1[ii]));
    }
    match store.fixed_value(value) {
        Some(val) => {
            proof {
                assert(s2[value.index as int].contains(val as int));
                assert(crate::domain::is_least(s2[value.index as int], val as int));
                lemma_least_is(s2[value.index as int], val as int);
            }
            let mut supported: Vec<i32> = Vec::new();
            let mut position: usize = 0;
            while position < array.len()
                invariant
                    0 <= position <= array@.len(),
                    array@.len() <= i32::MAX,
                    store@ == s2,
                    vars_in_range(array@, s2.len()),
                    forall|i: int| seq_has(supported@, i) <==> (0 <= i < position && s2[array@[i].index as int].contains(val as int)),
                decreases array@.len() - position,
            {
                let ghost before = supported@;
                if store.contains(array[position], val) {
                    supported.push(position as i32);
                }
                proof {
                    assert forall|i: int| seq_has(supported@, i) <==> (0 <= i < position + 1 && s2[array@[i].index as int].contains(val as int)) by {
                        if seq_has(supported@, i) {
                            let q = choose|q: int| 0 <= q < supported@.len() && supported@[q] == i;
                            if q < before.len() {
                                assert(before[q] == i);
                                assert(seq_has(before, i));
                            }
                        }
                        if 0 <= i < position && s2[array@[i].index as int].contains(val as int) {
                            assert(seq_has(before, i));
                            let q = choose|q: int| 0 <= q < before.len() && before[q] == i;
                            assert(supported@[q] == i);
                        }
                        if i == position && s2[array@[i].index as int].contains(val as int) {
                            assert(supported@[before.len() as int] == i);
                        }
                    }
                }
                position = position + 1;
            }
            let values = store.values(index);
            let mut k: usize = 0;
            proof {
                assert(s2[ii].filter(|i: int| !(seq_has(values@.take(0), i) && !seq_has(supported@, i))) =~= s2[ii]);
                assert(s2.update(ii, s2[ii]) =~= s2);
                assert(narrows(s2, s2));
            }
            let ghost c2 = changed;
            while k < values.len()
                invariant
                    0 <= k <= values@.len(),
                    ii == index.index,
                    ii < s2.len(),
                    store@ == s2.update(ii, s2[ii].filter(|i: int| !(seq_has(values@.take(k as int), i) && !seq_has(supported@, i)))),
                    narrows(s0, s2),
                    narrows(s2, store@),
                    c2 == (s2 != s0),
                    changed == (store@ != s0),
                decreases values@.len() - k,
            {
                let ghost t = store@;
                let v = values[k];
                proof {
                    let ta = values@.take(k + 1);
                    let tb = values@.take(k as int);
                    assert forall|y: int| seq_has(ta, y) <==> (seq_has(tb, y) || y == v) by {
                        if seq_has(ta, y) {
                            let q = choose|q: int| 0 <= q < ta.len() && ta[q] == y;
                            if q < k {
                                assert(tb[q] == y);
                            }
                        }
                        if seq_has(tb, y) {
                            let q = choose|q: int| 0 <= q < tb.len() && tb[q] == y;
                            assert(ta[q] == y);
                        }
                        if y == v {
                            assert(ta[k as int] == y);
                        }
                    }
                }
                let mut found = false;
                let mut j: usize = 0;
                while j < supported.len()
                    invariant
                        0 <= j <= supported@.len(),
                        found == exists|q: int| 0 <= q < j && supported@[q] == v,
                    decreases supported@.len() - j,
                {
                    if supported[j] == v {
                        found = true;
                    }
                    j = j + 1;
                }
                if !found {
                    let step = store.remove_value(index, v);
                    proof {
                        assert(t[ii].remove(v as int) =~= s2[ii].filter(|i: int| !(seq_has(values@.take(k + 1), i) && !seq_has(supported@, i))));
                        assert(store@ =~= s2.update(ii, s2[ii].filter(|i: int| !(seq_has(values@.take(k + 1), i) && !seq_has(supported@, i)))));
                        lemma_narrow_step(s0, t, store@, changed, step);
                        lemma_narrows_trans(s2, t, store@);
                    }
                    changed = changed || step;
                } else {
                    proof {
                        assert(seq_has(supported@, v as int));
                        assert(s2[ii].filter(|i: int| !(seq_has(values@.take(k + 1), i) && !seq_has(supported@, i))) =~= s2[ii].filter(
                            |i: int| !(seq_has(values@.take(k as int), i) && !seq_has(supported@, i)),
                        ));
                    }
                }
                k = k + 1;
            }
            proof {
                assert(values@.take(k as int) =~= values@);
                assert(s2[ii].filter(|i: int| !(seq_has(values@, i) && !seq_has(supported@, i))) =~= s2[ii].filter(
                    |i: int| 0 <= i < n && s2[array@[i].index as int].contains(val as int),
                )) by {
                    assert forall|i: int| s2[ii].contains(i) implies (!(seq_has(values@, i) && !seq_has(supported@, i)) <==> (0 <= i < n
                        && s2[array@[i].index as int].contains(val as int))) by {
                        assert(seq_has(values@, i));
                    }
                }
                lemma_narrows_trans(s0, s2, store@);
            }
        },
        None => {
            proof {
                assert(!is_fixed(s2[value.index as int]));
            }
        },
    }
    proof {
        assert(store@[ii].subset_of(s2[ii]));
        assert(s2[ii].subset_of(s1[ii]));
    }
    changed
}


/// Cuts the value by the elements at the possible positions ([`elem_bounds_step`]);
/// returns whether a domain changed.
pub fn propagate_value_bounds(store: &mut DomainStore, index: VariableId, array: &Vec<VariableId>, value: VariableId) -> (changed: bool)
    requires
        index.index < old(store)@.len(),
        value.index < old(store)@.len(),
        vars_in_range(array@, old(store)@.len()),
        positions_in(old(store)@[index.index as int], array@.len() as int),
    ensures
        final(store)@ == elem_bounds_step(old(store)@, index.index as int, array@, value.index as int),
        changed == (final(store)@ != old(store)@),
        narrows(old(store)@, final(store)@),
{
    let ghost s0 = store@;
    let ghost ii = index.index as int;
    match store.fixed_value(index) {
        Some(idx) => {
            proof {
                assert(s0[ii].contains(idx as int));
                assert(crate::domain::is_least(s0[ii], idx as int));
                lemma_least_is(s0[ii], idx as int);
            }
            let element = array[idx as usize];
            return tighten_equal(store, value, element);
        },
        None => {
            proof {
                assert(!is_fixed(s0[ii]));
            }
        },
    }
    let idxs = listing(store, index);
    let ghost iv = idxs@.map_values(|v: i32| v as int);
    proof {
        assert forall|q: int| 0 <= q < iv.len() implies s0[ii].contains(#[trigger] iv[q]) by {
            assert(iv.contains(iv[q]));
        }
    }
    let mut hull: Option<(i32, i32)> = None;
    let mut k: usize = 0;
    while k < idxs.len()
        invariant
            0 <= k <= idxs@.len(),
            store@ == s0,
            iv == idxs@.map_values(|v: i32| v as int),
            iv == sorted_elems(s0[ii]),
            sorted_listing(iv, s0[ii]),
            vars_in_range(array@, s0.len()),
            positions_in(s0[ii], array@.len() as int),
            forall|q: int| 0 <= q < iv.len() ==> s0[ii].contains(#[trigger] iv[q]),
            match elem_hull(s0, array@, iv, k as nat) {
                Some((a, b)) => hull == Some((a as i32, b as i32)) && i32::MIN <= a <= i32::MAX && i32::MIN <= b <= i32::MAX,
                None => hull is None,
            },
        decreases idxs@.len() - k,
    {
        proof {
            assert(iv.contains(iv[k as int]));
            assert(crate::linear_scalar::sorted_listing(iv, s0[ii]));
        }
        let element = array[idxs[k] as usize];
        match (store.min(element), store.max(element)) {
            (Some(mn), Some(mx)) => {
                proof {
                    lemma_least_is(s0[element.index as int], mn as int);
                    lemma_greatest_is(s0[element.index as int], mx as int);
                }
                hull = match hull {
                    Some((a, b)) => Some((if mn < a { mn } else { a }, if mx > b { mx } else { b })),
                    None => Some((mn, mx)),
                };
            },
            _ => {},
        }
        k = k + 1;
    }
    let mut changed = false;
    proof {
        assert(narrows(s0, s0));
    }
    match hull {
        Some((lo, hi)) => {
            changed = store.restrict(value, lo, hi);
        },
        None => {},
    }
    let ghost s1 = store@;
    proof {
        assert(s1[ii].subset_of(s0[ii]));
        assert(positions_in(s1[ii], array@.len() as int));
    }
    let idxs2 = listing(store, index);
    let ghost iv2 = idxs2@.map_values(|v: i32| v as int);
    let mut k2: usize = 0;
    while k2 < idxs2.len()
        invariant
            0 <= k2 <= idxs2@.len(),
            iv2 == idxs2@.map_values(|v: i32| v as int),
            iv2 == sorted_elems(s1[ii]),
            sorted_listing(iv2, s1[ii]),
            vars_in_range(array@, s0.len()),
            positions_in(s1[ii], array@.len() as int),
            value.index < s0.len(),
            store@.len() == s0.len(),
            store@ == elems_to_value(s1, array@, iv2, value.index as int, k2 as nat),
            narrows(s0, store@),
            changed == (store@ != s0),
        decreases idxs2@.len() - k2,
    {
        proof {
            assert(iv2.contains(iv2[k2 as int]));
            assert(crate::linear_scalar::sorted_listing(iv2, s1[ii]));
        }
        let element = array[idxs2[k2] as usize];
        let ghost t = store@;
        let step = propagate_element_to_value(store, element, value);
        proof {
            lemma_narrow_step(s0, t, store@, changed, step);
        }
        changed = changed || step;
        k2 = k2 + 1;
    }
    changed
}

/// Whether the index, the value or an element has an empty domain.
fn element_empty(store: &DomainStore, index: VariableId, array: &Vec<VariableId>, value: VariableId) -> (r: bool)
    requires
        index.index < store@.len(),
        value.index < store@.len(),
        vars_in_range(array@, store@.len()),
    ensures
        r == (store@[index.index as int].is_empty() || store@[value.index as int].is_empty() || some_var_empty(store@, array@)),
{
    if store.is_empty(index) || store.is_empty(value) {
        return true;
    }
    let mut i: usize = 0;
    while i < array.len()
        invariant
            0 <= i <= array@.len(),
            vars_in_range(array@, store@.len()),
            forall|k: int| 0 <= k < i ==> !store@[(#[trigger] array@[k]).index as int].is_empty(),
        decreases array@.len() - i,
    {
        if store.is_empty(array[i]) {
            proof {
                assert(store@[array@[i as int].index as int].is_empty());
            }
            return true;
        }
        i = i + 1;
    }
    false
}

/// Propagates `value == array[index]` with bound consistency.
pub struct ElementPropagator {
    /// `index`, the array, then `value`.
    pub watched: Vec<VariableId>,
    /// The index variable.
    pub index: VariableId,
    /// The array.
    pub array: Vec<VariableId>,
    /// The value variable.
    pub value: VariableId,
}

impl ElementPropagator {
    /// Creates the propagator for `value == array[index]`.
    pub fn new(index: VariableId, array: Vec<VariableId>, value: VariableId) -> (p: Self)
        ensures
            p.index == index,
            p.array@ == array@,
            p.value == value,
            p.watched@ == seq![index] + array@ + seq![value],
    {
        let mut watched: Vec<VariableId> = Vec::new();
        watched.push(index);
        let mut i: usize = 0;
        while i < array.len()
            invariant
                0 <= i <= array@.len(),
                watched@ == seq![index] + array@.take(i as int),
            decreases array@.len() - i,
        {
            watched.push(array[i]);
            proof {
                assert(seq![index] + array@.take(i + 1) =~= (seq![index] + array@.take(i as int)).push(array@[i as int]));
            }
            i = i + 1;
        }
        watched.push(value);
        proof {
            assert(array@.take(i as int) =~= array@);
        }
        ElementPropagator { watched, index, array, value }
    }

    /// The variables whose domains this propagator reads.
    pub fn watched_variables(&self) -> (w: &Vec<VariableId>)
        ensures
            w@ == self.watched@,
    {
        &self.watched
    }

    /// Scheduling priority: propagators with a lower number run first.
    pub fn priority(&self) -> (p: u32)
        ensures
            p == 15,
    {
        15
    }

    /// Fails on an empty array; otherwise repeats rounds of [`elem_round`] until one
    /// changes nothing, then fails when the index, the value or an element has an empty
    /// domain.
    pub fn propagate(&mut self, store: &mut DomainStore) -> (status: PropagationStatus)
        requires
            old(self).index.index < old(store)@.len(),
            old(self).value.index < old(store)@.len(),
            vars_in_range(old(self).array@, old(store)@.len()),
            old(self).array@.len() <= i32::MAX,
        ensures
            *final(self) == *old(self),
            old(self).array@.len() == 0 ==> final(store)@ == old(store)@ && status == PropagationStatus::Failure,
            old(self).array@.len() > 0 ==> {
                let (ii, vi) = (old(self).index.index as int, old(self).value.index as int);
                &&& exists|n: nat| final(store)@ == elem_rounds(old(store)@, ii, old(self).array@, vi, n)
                &&& elem_round(final(store)@, ii, old(self).array@, vi) == final(store)@
                &&& status == (if final(store)@[ii].is_empty() || final(store)@[vi].is_empty() || some_var_empty(
                    final(store)@,
                    old(self).array@,
                ) {
                    PropagationStatus::Failure
                } else if final(store)@ != old(store)@ {
                    PropagationStatus::OkChanged
                } else {
                    PropagationStatus::OkNoChange
                })
            },
    {
        if self.array.len() == 0 {
            return PropagationStatus::Failure;
        }
        let ghost s0 = store@;
        let ghost arr = self.array@;
        let ghost ii = self.index.index as int;
        let ghost vi = self.value.index as int;
        let ghost mut n: nat = 0;
        let mut changed = false;
        proof {
            assert(narrows(s0, s0));
        }
        loop
            invariant
                arr == self.array@,
                ii == self.index.index,
                vi == self.value.index,
                ii < s0.len(),
                vi < s0.len(),
                vars_in_range(arr, s0.len()),
                arr.len() <= i32::MAX,
                store@.len() == s0.len(),
                store@ == elem_rounds(s0, ii, arr, vi, n),
                narrows(s0, store@),
                changed == (store@ != s0),
            ensures
                store@ == elem_rounds(s0, ii, arr, vi, n),
                elem_round(store@, ii, arr, vi) == store@,
                changed == (store@ != s0),
            decreases total_size(store@),
        {
            store.assert_in_range();
            let ghost start = store@;
            let c1 = propagate_index(store, self.index, &self.array, self.value);
            let ghost mid = store@;
            let c2 = propagate_value_bounds(store, self.index, &self.array, self.value);
            proof {
                lemma_narrow_step(start, mid, store@, c1, c2);
                lemma_narrows_trans(s0, start, store@);
                lemma_narrow_step(s0, start, store@, changed, c1 || c2);
                n = n + 1;
            }
            changed = changed || c1 || c2;
            if !(c1 || c2) {
                proof {
                    assert(store@ == start);
                }
                break;
            }
            proof {
                lemma_total_size_narrows(start, store@);
            }
        }
        if element_empty(store, self.index, &self.array, self.value) {
            PropagationStatus::Failure
        } else if changed {
            PropagationStatus::OkChanged
        } else {
            PropagationStatus::OkNoChange
        }
    }
}

} // verus!
